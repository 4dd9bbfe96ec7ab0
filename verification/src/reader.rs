//! The tailer. Each poll cycle takes the whole log text, splits it into
//! lines, parses the newest lines into entries until the window is full,
//! renders them, and redraws only when the rendered window differs from the
//! previous cycle's. The poll step is a pure function of the reader state,
//! the log bytes and the instant `now`; `spec_step` is that function.

use crate::codec::spec_deserialize;
use crate::message::{Message, MessageView};
use crate::render::spec_render;
use vstd::prelude::*;
use vstd::slice::slice_subrange;

verus! {

/// Default number of visible lines.
pub const N_LINES: usize = 10;

/// Default width of the blink window, in milliseconds.
pub const BLINK_MILLIS: u64 = 1500;

/// Pause between poll cycles, in milliseconds.
pub const REFRESH_RATE_MILLIS: u64 = 100;

/// Index of the last newline in `s`, or a negative value if there is none.
pub open spec fn last_nl(s: Seq<u8>) -> int
    decreases s.len(),
{
    if s.len() == 0 {
        -1
    } else if s.last() == 10 {
        s.len() - 1
    } else {
        last_nl(s.drop_last())
    }
}

proof fn lemma_last_nl_bounds(s: Seq<u8>)
    ensures
        -1 <= last_nl(s) < s.len(),
    decreases s.len(),
{
    if s.len() > 0 && s.last() != 10 {
        lemma_last_nl_bounds(s.drop_last());
    }
}

#[via_fn]
proof fn split_raw_decreases(t: Seq<u8>)
{
    lemma_last_nl_bounds(t);
}

/// Splits at every newline; the text after the last newline is a segment
/// even when it is empty.
pub open spec fn split_raw(t: Seq<u8>) -> Seq<Seq<u8>>
    decreases t.len(),
        via split_raw_decreases
{
    let k = last_nl(t);
    if k < 0 {
        seq![t]
    } else {
        split_raw(t.take(k)) + seq![t.skip(k + 1)]
    }
}

/// The lines of the log text, split as `str::lines` splits them: one
/// trailing newline is absorbed, and an empty text has no lines.
pub open spec fn spec_lines(s: Seq<u8>) -> Seq<Seq<u8>> {
    if s.len() == 0 {
        seq![]
    } else if s.last() == 10 {
        split_raw(s.drop_last())
    } else {
        split_raw(s)
    }
}

/// The display candidates: walking the lines newest (that is, last) first,
/// the entries of the first `n` lines that parse, newest first. A line that
/// does not parse is skipped.
pub open spec fn spec_select(lines: Seq<Seq<u8>>, n: int) -> Seq<MessageView>
    decreases lines.len(),
{
    if n <= 0 || lines.len() == 0 {
        seq![]
    } else {
        match spec_deserialize(lines.last()) {
            Some(v) => seq![v] + spec_select(lines.drop_last(), n - 1),
            None => spec_select(lines.drop_last(), n),
        }
    }
}

/// The visible window of the log: at most `n` entries, newest first.
pub open spec fn spec_window(s: Seq<u8>, n: int) -> Seq<MessageView> {
    spec_select(spec_lines(s), n)
}

/// The rendered lines of a sequence of entries.
pub open spec fn render_all(vs: Seq<MessageView>, blink_millis: u64, now: u64) -> Seq<Seq<u8>> {
    vs.map_values(|v: MessageView| spec_render(v, blink_millis, now))
}

/// The models of a sequence of entries.
pub open spec fn views_of(ms: Seq<Message>) -> Seq<MessageView> {
    ms.map_values(|m: Message| m@)
}

/// The rendered window: one display line per visible entry, newest first.
pub open spec fn spec_stack(s: Seq<u8>, n: int, blink_millis: u64, now: u64) -> Seq<Seq<u8>> {
    render_all(spec_window(s, n), blink_millis, now)
}

/// The views of a vector of rendered lines.
pub open spec fn stack_view(stack: Seq<Vec<u8>>) -> Seq<Seq<u8>> {
    stack.map_values(|b: Vec<u8>| b@)
}

proof fn lemma_stack_view_push(s: Seq<Vec<u8>>, x: Vec<u8>)
    ensures
        stack_view(s.push(x)) == stack_view(s).push(x@),
{
    assert forall|k: int| 0 <= k < s.push(x).len() implies stack_view(s.push(x))[k] == stack_view(
        s,
    ).push(x@)[k] by {
        if k < s.len() {
            assert(stack_view(s.push(x))[k] == s.push(x)[k]@);
            assert(s.push(x)[k] == s[k]);
            assert(stack_view(s).push(x@)[k] == stack_view(s)[k]);
            assert(stack_view(s)[k] == s[k]@);
        } else {
            assert(stack_view(s.push(x))[k] == x@);
            assert(stack_view(s).push(x@)[k] == x@);
        }
    }
    assert(stack_view(s.push(x)) =~= stack_view(s).push(x@));
}

proof fn lemma_render_all_push(vs: Seq<MessageView>, v: MessageView, blink_millis: u64, now: u64)
    ensures
        render_all(vs.push(v), blink_millis, now) == render_all(vs, blink_millis, now).push(
            spec_render(v, blink_millis, now),
        ),
{
    let l = render_all(vs.push(v), blink_millis, now);
    let r = render_all(vs, blink_millis, now).push(spec_render(v, blink_millis, now));
    assert forall|k: int| 0 <= k < l.len() implies l[k] == r[k] by {
        if k < vs.len() {
            assert(l[k] == spec_render(vs.push(v)[k], blink_millis, now));
            assert(vs.push(v)[k] == vs[k]);
            assert(r[k] == render_all(vs, blink_millis, now)[k]);
        } else {
            assert(l[k] == spec_render(vs.push(v)[k], blink_millis, now));
            assert(vs.push(v)[k] == v);
        }
    }
    assert(l =~= r);
}

proof fn lemma_views_of_push(ms: Seq<Message>, m: Message)
    ensures
        views_of(ms.push(m)) == views_of(ms).push(m@),
{
    assert forall|k: int| 0 <= k < ms.push(m).len() implies views_of(ms.push(m))[k] == views_of(
        ms,
    ).push(m@)[k] by {
        if k < ms.len() {
            assert(views_of(ms.push(m))[k] == ms.push(m)[k]@);
            assert(ms.push(m)[k] == ms[k]);
            assert(views_of(ms).push(m@)[k] == views_of(ms)[k]);
        } else {
            assert(views_of(ms.push(m))[k] == m@);
        }
    }
    assert(views_of(ms.push(m)) =~= views_of(ms).push(m@));
}

/// Mathematical model of a `Reader`.
#[verifier::ext_equal]
pub ghost struct ReaderView {
    pub print_stack: Option<Seq<Seq<u8>>>,
    pub n: usize,
    pub blink_millis: u64,
}

/// One poll cycle over the log bytes `s` at the instant `now`: the new state,
/// and the lines to print (oldest of the window first) when the rendered
/// window changed, or nothing when it did not.
pub open spec fn spec_step(rv: ReaderView, s: Seq<u8>, now: u64) -> (ReaderView, Option<
    Seq<Seq<u8>>,
>) {
    let stack = spec_stack(s, rv.n as int, rv.blink_millis, now);
    if rv.print_stack == Some(stack) {
        (rv, None)
    } else {
        (
            ReaderView { print_stack: Some(stack), n: rv.n, blink_millis: rv.blink_millis },
            Some(stack.reverse()),
        )
    }
}

/// Configuration of a `Reader`; unset options fall back to the defaults.
pub struct ReaderOpts {
    n: Option<usize>,
    blink_millis: Option<u64>,
}

/// Mathematical model of `ReaderOpts`.
#[verifier::ext_equal]
pub ghost struct OptsView {
    pub n: Option<usize>,
    pub blink_millis: Option<u64>,
}

impl View for ReaderOpts {
    type V = OptsView;

    closed spec fn view(&self) -> OptsView {
        OptsView { n: self.n, blink_millis: self.blink_millis }
    }
}

impl Default for ReaderOpts {
    fn default() -> (r: Self)
        ensures
            r@.n is None,
            r@.blink_millis is None,
    {
        ReaderOpts { n: None, blink_millis: None }
    }
}

impl ReaderOpts {
    /// Sets the window size.
    pub fn with_lines(&mut self, n: usize)
        ensures
            final(self)@.n == Some(n),
            final(self)@.blink_millis == old(self)@.blink_millis,
    {
        self.n = Some(n)
    }

    /// Sets the blink window width.
    pub fn with_blink_millis(&mut self, blink_millis: u64)
        ensures
            final(self)@.blink_millis == Some(blink_millis),
            final(self)@.n == old(self)@.n,
    {
        self.blink_millis = Some(blink_millis)
    }

    /// Builds a reader with the chosen options, falling back to the defaults.
    pub fn build(self) -> (r: Reader)
        ensures
            r@.print_stack is None,
            r@.n == (match self@.n {
                Some(n) => n,
                None => N_LINES,
            }),
            r@.blink_millis == (match self@.blink_millis {
                Some(b) => b,
                None => BLINK_MILLIS,
            }),
    {
        Reader {
            print_stack: None,
            n: match self.n {
                Some(n) => n,
                None => N_LINES,
            },
            blink_millis: match self.blink_millis {
                Some(b) => b,
                None => BLINK_MILLIS,
            },
        }
    }
}

/// The tailer state: the previous cycle's rendered window, the window size,
/// and the blink window width.
pub struct Reader {
    print_stack: Option<Vec<Vec<u8>>>,
    n: usize,
    blink_millis: u64,
}

impl View for Reader {
    type V = ReaderView;

    closed spec fn view(&self) -> ReaderView {
        ReaderView {
            print_stack: match self.print_stack {
                Some(ref v) => Some(stack_view(v@)),
                None => None,
            },
            n: self.n,
            blink_millis: self.blink_millis,
        }
    }
}

fn bytes_equal(a: &Vec<u8>, b: &Vec<u8>) -> (r: bool)
    ensures
        r <==> a@ == b@,
{
    if a.len() != b.len() {
        return false;
    }
    let mut i: usize = 0;
    while i < a.len()
        invariant
            0 <= i <= a@.len(),
            a@.len() == b@.len(),
            forall|k: int| 0 <= k < i ==> a@[k] == b@[k],
        decreases a@.len() - i,
    {
        if a[i] != b[i] {
            return false;
        }
        i += 1;
    }
    proof {
        assert(a@ =~= b@);
    }
    true
}

fn stacks_equal(a: &Vec<Vec<u8>>, b: &Vec<Vec<u8>>) -> (r: bool)
    ensures
        r <==> stack_view(a@) == stack_view(b@),
{
    if a.len() != b.len() {
        proof {
            assert(stack_view(a@).len() != stack_view(b@).len());
        }
        return false;
    }
    let mut i: usize = 0;
    while i < a.len()
        invariant
            0 <= i <= a@.len(),
            a@.len() == b@.len(),
            forall|k: int| 0 <= k < i ==> a@[k]@ == b@[k]@,
        decreases a@.len() - i,
    {
        if !bytes_equal(&a[i], &b[i]) {
            proof {
                assert(stack_view(a@)[i as int] != stack_view(b@)[i as int]);
            }
            return false;
        }
        i += 1;
    }
    proof {
        assert(stack_view(a@) =~= stack_view(b@));
    }
    true
}

fn copy_bytes(v: &Vec<u8>) -> (r: Vec<u8>)
    ensures
        r@ == v@,
{
    let mut r: Vec<u8> = Vec::new();
    r.extend_from_slice(v.as_slice());
    r
}

fn copy_stack(v: &Vec<Vec<u8>>) -> (r: Vec<Vec<u8>>)
    ensures
        stack_view(r@) == stack_view(v@),
{
    let mut r: Vec<Vec<u8>> = Vec::new();
    let mut i: usize = 0;
    while i < v.len()
        invariant
            0 <= i <= v@.len(),
            r@.len() == i,
            forall|k: int| 0 <= k < i ==> r@[k]@ == v@[k]@,
        decreases v@.len() - i,
    {
        r.push(copy_bytes(&v[i]));
        i += 1;
    }
    proof {
        assert(stack_view(r@) =~= stack_view(v@));
    }
    r
}

impl Reader {
    /// A reader with an explicit window size and blink width and no previous
    /// window.
    pub fn new(n: usize, blink_millis: u64) -> (r: Self)
        ensures
            r@.print_stack is None,
            r@.n == n,
            r@.blink_millis == blink_millis,
    {
        Self { n, print_stack: None, blink_millis }
    }

    /// The rendered line of one entry under this reader's blink width.
    fn format(&self, msg: &Message, now: u64) -> (r: Vec<u8>)
        ensures
            r@ == spec_render(msg@, self@.blink_millis, now),
    {
        msg.render(self.blink_millis, now)
    }

    /// One poll cycle: rebuilds the rendered window from the log bytes `s` at
    /// the instant `now`, pushes every entry of the window onto `history`
    /// (newest first), and returns the lines to print (oldest of the window
    /// first) exactly when the window differs from the previous cycle's.
    /// Behaves as `spec_step` of the reader's state.
    #[verifier::loop_isolation(false)]
    #[verifier::rlimit(100)]
    pub fn parse(&mut self, s: &Vec<u8>, now: u64, history: &mut Vec<Message>) -> (redraw: Option<
        Vec<Vec<u8>>,
    >)
        ensures
            final(self)@ == spec_step(old(self)@, s@, now).0,
            match redraw {
                Some(lines) => spec_step(old(self)@, s@, now).1 == Some(stack_view(lines@)),
                None => spec_step(old(self)@, s@, now).1 is None,
            },
            views_of(final(history)@) == views_of(old(history)@) + spec_window(
                s@,
                old(self)@.n as int,
            ),
    {
        let ghost pre = old(self)@;
        let n = self.n;
        let blink = self.blink_millis;
        let ghost target = spec_select(spec_lines(s@), n as int);
        let mut stack: Vec<Vec<u8>> = Vec::new();
        let ghost mut col: Seq<MessageView> = Seq::empty();

        if s.len() > 0 {
            let mut pos: usize = s.len();
            if s[pos - 1] == 10 {
                pos -= 1;
                proof {
                    assert(s@.drop_last() =~= s@.take(pos as int));
                }
            } else {
                proof {
                    assert(s@ =~= s@.take(pos as int));
                }
            }
            let mut more: bool = true;
            while more && stack.len() < n
                invariant
                    col.len() == stack@.len() <= n as int,
                    stack_view(stack@) == render_all(col, blink, now),
                    views_of(history@) == views_of(old(history)@) + col,
                    pos as int <= s@.len(),
                    target == col + (if more {
                        spec_select(split_raw(s@.take(pos as int)), n as int - col.len() as int)
                    } else {
                        Seq::<MessageView>::empty()
                    }),
                decreases pos as int + (if more {
                    1int
                } else {
                    0int
                }),
            {
                let ghost t = s@.take(pos as int);
                let mut j: usize = pos;
                while j > 0 && s[j - 1] != 10
                    invariant
                        0 <= j <= pos,
                        last_nl(s@.take(pos as int)) == last_nl(s@.take(j as int)),
                    decreases j,
                {
                    proof {
                        assert(s@.take(j as int).drop_last() =~= s@.take(j - 1));
                        assert(s@.take(j as int).last() == s@[j - 1]);
                    }
                    j -= 1;
                }
                proof {
                    if j > 0 {
                        assert(s@.take(j as int).last() == s@[j - 1]);
                        assert(last_nl(s@.take(pos as int)) == j - 1);
                    } else {
                        assert(s@.take(0) =~= Seq::<u8>::empty());
                        assert(last_nl(s@.take(pos as int)) == -1);
                    }
                }
                let line = slice_subrange(s.as_slice(), j, pos);
                let ghost rem = split_raw(t);
                proof {
                    if j > 0 {
                        assert(rem == split_raw(t.take(j - 1)) + seq![t.skip(j as int)]);
                        assert(t.take(j - 1) =~= s@.take(j - 1));
                        assert(t.skip(j as int) =~= line@);
                        assert(rem.drop_last() =~= split_raw(s@.take(j - 1)));
                        assert(rem.last() == line@);
                    } else {
                        assert(rem == seq![t]);
                        assert(t.skip(0) =~= t);
                        assert(t =~= line@);
                        assert(rem.last() == line@);
                        assert(rem.drop_last() =~= Seq::<Seq<u8>>::empty());
                    }
                }
                let ghost m = n as int - col.len() as int;
                match crate::codec::deserialize(line) {
                    Ok(msg) => {
                        let ghost v = msg@;
                        proof {
                            assert(spec_select(rem, m) == seq![v] + spec_select(
                                rem.drop_last(),
                                m - 1,
                            ));
                        }
                        let rendered = self.format(&msg, now);
                        let ghost oldstack = stack@;
                        let ghost oldhist = history@;
                        let ghost rend = rendered@;
                        stack.push(rendered);
                        history.push(msg);
                        proof {
                            let oldcol = col;
                            col = col.push(v);
                            assert(col =~= oldcol + seq![v]);
                            lemma_stack_view_push(oldstack, stack@.last());
                            assert(stack@ == oldstack.push(stack@.last()));
                            assert(stack@.last()@ == rend);
                            lemma_render_all_push(oldcol, v, blink, now);
                            assert(stack_view(stack@) == render_all(col, blink, now));
                            lemma_views_of_push(oldhist, history@.last());
                            assert(history@ == oldhist.push(history@.last()));
                            assert(views_of(history@) == (views_of(old(history)@) + oldcol).push(
                                v,
                            ));
                            assert((views_of(old(history)@) + oldcol).push(v) =~= views_of(
                                old(history)@,
                            ) + col);
                            assert(target == col + spec_select(rem.drop_last(), m - 1));
                        }
                    },
                    Err(_) => {
                        proof {
                            assert(spec_select(rem, m) == spec_select(rem.drop_last(), m));
                            assert(target == col + spec_select(rem.drop_last(), m));
                        }
                    },
                }
                if j == 0 {
                    more = false;
                    proof {
                        assert(spec_select(Seq::<Seq<u8>>::empty(), n as int - col.len() as int)
                            == Seq::<MessageView>::empty());
                        assert(target =~= col);
                    }
                } else {
                    pos = j - 1;
                }
            }
            proof {
                if more {
                    assert(col.len() == n as int);
                    assert(spec_select(split_raw(s@.take(pos as int)), 0)
                        == Seq::<MessageView>::empty());
                }
                assert(target =~= col);
            }
        } else {
            proof {
                assert(spec_lines(s@) == Seq::<Seq<u8>>::empty());
                assert(spec_select(spec_lines(s@), n as int) == Seq::<MessageView>::empty());
                assert(target =~= col);
            }
        }
        proof {
            assert(stack_view(stack@) == spec_stack(s@, pre.n as int, pre.blink_millis, now));
            assert(views_of(history@) == views_of(old(history)@) + spec_window(
                s@,
                pre.n as int,
            ));
        }

        let same: bool = match &self.print_stack {
            None => false,
            Some(prev) => stacks_equal(prev, &stack),
        };
        if same {
            proof {
                assert(pre.print_stack == Some(
                    spec_stack(s@, pre.n as int, pre.blink_millis, now),
                ));
            }
            return None;
        }
        let stored = copy_stack(&stack);
        self.print_stack = Some(stored);
        proof {
            assert(self@ =~= spec_step(pre, s@, now).0);
        }
        let out = reverse_stack(stack);
        Some(out)
    }
}

/// Reverses a stack of rendered lines, so that the newest line ends up last.
fn reverse_stack(v: Vec<Vec<u8>>) -> (out: Vec<Vec<u8>>)
    ensures
        stack_view(out@) == stack_view(v@).reverse(),
{
    let mut stack = v;
    let ghost full = stack@;
    let mut out: Vec<Vec<u8>> = Vec::new();
    proof {
        assert(stack@ =~= full.take(stack@.len() as int));
        assert(stack_view(out@) =~= stack_view(full).skip(stack@.len() as int).reverse());
    }
    while stack.len() > 0
        invariant
            stack@.len() <= full.len(),
            stack@ == full.take(stack@.len() as int),
            stack_view(out@) == stack_view(full).skip(stack@.len() as int).reverse(),
        decreases stack@.len(),
    {
        let ghost cur = stack@.len() as int;
        proof {
            assert(stack@.last() == full.take(cur)[cur - 1]);
            assert(full.take(cur)[cur - 1] == full[cur - 1]);
            assert(stack_view(full).skip(cur - 1) =~= seq![stack_view(full)[cur - 1]] + stack_view(
                full,
            ).skip(cur));
            assert(stack_view(full)[cur - 1] == full[cur - 1]@);
            assert((seq![full[cur - 1]@] + stack_view(full).skip(cur)).reverse() =~= stack_view(
                full,
            ).skip(cur).reverse().push(full[cur - 1]@));
        }
        let item = stack.pop().unwrap();
        out.push(item);
        proof {
            assert(stack@ =~= full.take(stack@.len() as int));
            assert(stack_view(out@) =~= stack_view(full).skip(stack@.len() as int).reverse());
        }
    }
    proof {
        assert(stack_view(full).skip(0) =~= stack_view(full));
        assert(stack_view(v@) == stack_view(full));
    }
    out
}

/// Redraw suppression: a second poll cycle over the same log bytes at the
/// same instant leaves the state unchanged and prints nothing.
pub proof fn lemma_redraw_suppressed(rv: ReaderView, s: Seq<u8>, now: u64)
    ensures
        spec_step(spec_step(rv, s, now).0, s, now).0 == spec_step(rv, s, now).0,
        spec_step(spec_step(rv, s, now).0, s, now).1 is None,
{
    let rv1 = spec_step(rv, s, now).0;
    assert(rv1.print_stack == Some(spec_stack(s, rv.n as int, rv.blink_millis, now)));
    assert(rv1.n == rv.n && rv1.blink_millis == rv.blink_millis);
}

/// The entry a well-formed line denotes.
pub open spec fn line_entry(lines: Seq<Seq<u8>>, i: int) -> MessageView {
    spec_deserialize(lines[i]).unwrap()
}

/// With `n` or more well-formed lines, the window holds exactly `n` entries,
/// and walking the window is walking the last lines backwards: the newest
/// line's entry first.
pub proof fn lemma_window_selects_newest(lines: Seq<Seq<u8>>, n: int)
    requires
        0 <= n <= lines.len(),
        forall|i: int| 0 <= i < lines.len() ==> (#[trigger] spec_deserialize(lines[i])) is Some,
    ensures
        spec_select(lines, n).len() == n,
        forall|i: int|
            0 <= i < n ==> #[trigger] spec_select(lines, n)[i] == line_entry(
                lines,
                lines.len() - 1 - i,
            ),
    decreases n,
{
    if n > 0 {
        lemma_window_selects_newest(lines.drop_last(), n - 1);
        let v = spec_deserialize(lines.last()).unwrap();
        assert(spec_select(lines, n) == seq![v] + spec_select(lines.drop_last(), n - 1));
        assert forall|i: int| 0 <= i < n implies #[trigger] spec_select(lines, n)[i] == line_entry(
            lines,
            lines.len() - 1 - i,
        ) by {
            if i > 0 {
                assert(spec_select(lines, n)[i] == spec_select(lines.drop_last(), n - 1)[i - 1]);
                assert(spec_select(lines.drop_last(), n - 1)[i - 1] == line_entry(
                    lines.drop_last(),
                    lines.len() - 1 - i,
                ));
                assert(lines.drop_last()[lines.len() - 1 - i] == lines[lines.len() - 1 - i]);
            }
        }
    }
}

/// Cap and order: when every line is well formed, the timestamps on disk are
/// nondecreasing and the log holds at least `n` lines, the window holds
/// exactly `n` entries, their timestamps do not increase along the window,
/// and no entry outside the window is newer than one inside it.
pub proof fn lemma_window_most_recent(lines: Seq<Seq<u8>>, n: int)
    requires
        0 <= n <= lines.len(),
        forall|i: int| 0 <= i < lines.len() ==> (#[trigger] spec_deserialize(lines[i])) is Some,
        forall|i: int, j: int|
            0 <= i <= j < lines.len() ==> line_entry(lines, i).timestamp <= line_entry(
                lines,
                j,
            ).timestamp,
    ensures
        spec_select(lines, n).len() == n,
        forall|i: int, j: int|
            0 <= i <= j < n ==> (#[trigger] spec_select(lines, n)[j]).timestamp <= (
            #[trigger] spec_select(lines, n)[i]).timestamp,
        forall|i: int, j: int|
            0 <= i < n && 0 <= j < lines.len() - n ==> (#[trigger] line_entry(lines, j)).timestamp
                <= (#[trigger] spec_select(lines, n)[i]).timestamp,
{
    lemma_window_selects_newest(lines, n);
}

/// Appending one well-formed line to a log that ends at a line boundary puts
/// that entry first in the new window; and whenever the new rendered window
/// differs from the previous one, the poll redraws and the new entry's line
/// is printed last, at the bottom of the terminal.
pub proof fn lemma_append_triggers_redraw(rv: ReaderView, s: Seq<u8>, v: MessageView, now: u64)
    requires
        rv.n >= 1,
        s.len() == 0 || s.last() == 10,
        rv.print_stack == Some(spec_stack(s, rv.n as int, rv.blink_millis, now)),
        spec_stack(s + crate::codec::spec_serialize(v) + seq![10u8], rv.n as int, rv.blink_millis,
            now,
        ) != spec_stack(s, rv.n as int, rv.blink_millis, now),
    ensures
        ({
            let s2 = s + crate::codec::spec_serialize(v) + seq![10u8];
            let r = spec_step(rv, s2, now);
            &&& r.1 is Some
            &&& spec_window(s2, rv.n as int).len() >= 1
            &&& spec_window(s2, rv.n as int)[0] == v
            &&& r.1.unwrap().len() >= 1
            &&& r.1.unwrap().last() == spec_render(v, rv.blink_millis, now)
        }),
{
    let line = crate::codec::spec_serialize(v);
    let s2 = s + line + seq![10u8];
    crate::codec::lemma_serialize_no_newline(v);
    lemma_lines_append(s, line);
    let lines2 = spec_lines(s2);
    assert(lines2 == spec_lines(s) + seq![line]);
    assert(lines2.last() == line);
    crate::codec::lemma_round_trip(v);
    assert(spec_deserialize(line) == Some(v));
    assert(lines2.drop_last() =~= spec_lines(s));
    assert(spec_select(lines2, rv.n as int) == seq![v] + spec_select(
        spec_lines(s),
        rv.n as int - 1,
    ));
    let w2 = spec_window(s2, rv.n as int);
    assert(w2[0] == v);
    let stack2 = spec_stack(s2, rv.n as int, rv.blink_millis, now);
    assert(stack2[0] == spec_render(v, rv.blink_millis, now));
    assert(rv.print_stack != Some(stack2));
    assert(spec_step(rv, s2, now).1 == Some(stack2.reverse()));
    assert(stack2.reverse().last() == stack2[0]);
}

/// A text that ends at a line boundary, extended by one line without inner
/// newlines and its terminator, has that line as one new last line.
proof fn lemma_lines_append(s: Seq<u8>, line: Seq<u8>)
    requires
        s.len() == 0 || s.last() == 10,
        forall|i: int| 0 <= i < line.len() ==> #[trigger] line[i] != 10,
    ensures
        spec_lines(s + line + seq![10u8]) == spec_lines(s) + seq![line],
{
    let s2 = s + line + seq![10u8];
    assert(s2.last() == 10);
    assert(s2.drop_last() =~= s + line);
    lemma_last_nl_no_nl_suffix(s, line);
    if s.len() == 0 {
        assert(s + line =~= line);
        assert(last_nl(s + line) == last_nl(s));
        assert(last_nl(s) == -1);
        assert(split_raw(s + line) == seq![s + line]);
        assert(spec_lines(s2) == seq![s + line]);
        assert(spec_lines(s) + seq![line] =~= seq![s + line]) by {
            assert(s + line =~= line);
        }
    } else {
        assert(last_nl(s + line) == last_nl(s));
        assert(last_nl(s) == s.len() - 1);
        let k = s.len() - 1;
        assert(split_raw(s + line) == split_raw((s + line).take(k)) + seq![(s + line).skip(k + 1)]);
        assert((s + line).take(k) =~= s.drop_last());
        assert((s + line).skip(k + 1) =~= line);
        assert(spec_lines(s) == split_raw(s.drop_last()));
        assert(spec_lines(s2) =~= spec_lines(s) + seq![line]);
    }
}

proof fn lemma_last_nl_no_nl_suffix(a: Seq<u8>, b: Seq<u8>)
    requires
        forall|i: int| 0 <= i < b.len() ==> #[trigger] b[i] != 10,
    ensures
        last_nl(a + b) == last_nl(a),
    decreases b.len(),
{
    if b.len() == 0 {
        assert(a + b =~= a);
    } else {
        assert((a + b).last() == b.last());
        assert(b.last() != 10);
        assert((a + b).drop_last() =~= a + b.drop_last());
        assert(forall|i: int| 0 <= i < b.drop_last().len() ==> #[trigger] b.drop_last()[i] != 10);
        lemma_last_nl_no_nl_suffix(a, b.drop_last());
    }
}

} // verus!
