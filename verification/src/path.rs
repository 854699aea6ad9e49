//! The path model: a path is a non-empty sequence of steps, each either a
//! named key (for objects) or a numeric index (for arrays).  Paths parse from
//! slash-delimited text, display back to it, and carry a total order in which
//! all keys sort before all indices at the same position.

use vstd::prelude::*;

verus! {

/// One segment of a path: a key into an object or an index into an array.
#[derive(Debug, PartialEq, Eq, PartialOrd, Ord, Hash)]
pub enum Step {
    Key(String),
    Index(usize),
}

/// The mathematical value of a `Step`.
pub enum StepView {
    Key(Seq<char>),
    Index(int),
}

impl View for Step {
    type V = StepView;

    open spec fn view(&self) -> StepView {
        match self {
            Step::Key(s) => StepView::Key(s@),
            Step::Index(i) => StepView::Index(*i as int),
        }
    }
}

/// A path: an ordered sequence of steps.
#[derive(Debug, PartialEq, Eq, PartialOrd, Ord, Hash)]
pub struct SchemaPath(pub Vec<Step>);

/// The view of a sequence of steps.
pub open spec fn steps_view(s: Seq<Step>) -> Seq<StepView> {
    s.map_values(|x: Step| x@)
}

impl View for SchemaPath {
    type V = Seq<StepView>;

    open spec fn view(&self) -> Seq<StepView> {
        steps_view(self.0@)
    }
}

// ---------------------------------------------------------------------------
// The total order on paths: lexicographic over steps, where a shorter path
// that is a prefix of a longer one sorts first; at one position keys compare
// by character (code point) order, indices numerically, and every key sorts
// before every index.
// ---------------------------------------------------------------------------

/// Lexicographic (code point) order on character sequences.
pub open spec fn chars_lt(a: Seq<char>, b: Seq<char>) -> bool
    decreases a.len(),
{
    b.len() > 0 && (a.len() == 0 || (a[0] as int) < (b[0] as int) || (a[0] == b[0] && chars_lt(
        a.skip(1),
        b.skip(1),
    )))
}

/// Order on single steps: keys before indices, keys by text, indices by value.
pub open spec fn step_lt(a: StepView, b: StepView) -> bool {
    match (a, b) {
        (StepView::Key(x), StepView::Key(y)) => chars_lt(x, y),
        (StepView::Key(_), StepView::Index(_)) => true,
        (StepView::Index(_), StepView::Key(_)) => false,
        (StepView::Index(x), StepView::Index(y)) => x < y,
    }
}

/// Strict lexicographic order on paths.
pub open spec fn path_lt(a: Seq<StepView>, b: Seq<StepView>) -> bool
    decreases a.len(),
{
    b.len() > 0 && (a.len() == 0 || step_lt(a[0], b[0]) || (a[0] == b[0] && path_lt(
        a.skip(1),
        b.skip(1),
    )))
}

pub open spec fn path_le(a: Seq<StepView>, b: Seq<StepView>) -> bool {
    path_lt(a, b) || a == b
}

/// `p` is a (strict or equal) prefix of `k`.
pub open spec fn is_prefix(p: Seq<StepView>, k: Seq<StepView>) -> bool {
    p.len() <= k.len() && forall|i: int| 0 <= i < p.len() ==> k[i] == p[i]
}

// ---------------------------------------------------------------------------
// Order laws.
// ---------------------------------------------------------------------------

pub proof fn lemma_chars_lt_trichotomy(a: Seq<char>, b: Seq<char>)
    ensures
        chars_lt(a, b) || chars_lt(b, a) || a == b,
        chars_lt(a, b) ==> !chars_lt(b, a) && a != b,
    decreases a.len(),
{
    if a.len() == 0 {
        if b.len() == 0 {
            assert(a =~= b);
        }
    } else if b.len() == 0 {
    } else {
        if a[0] as int == b[0] as int {
            assert(a[0] == b[0]);
            lemma_chars_lt_trichotomy(a.skip(1), b.skip(1));
            if a.skip(1) == b.skip(1) {
                assert(forall|i: int| 1 <= i < a.len() ==> a[i] == b[i]) by {
                    assert(forall|i: int|
                        1 <= i < a.len() ==> a[i] == a.skip(1)[i - 1] && b[i] == b.skip(1)[i - 1]);
                }
                assert(a =~= b);
            }
            if a == b {
                assert(a.skip(1) =~= b.skip(1));
            }
        }
    }
}

pub proof fn lemma_chars_lt_trans(a: Seq<char>, b: Seq<char>, c: Seq<char>)
    requires
        chars_lt(a, b),
        chars_lt(b, c),
    ensures
        chars_lt(a, c),
    decreases a.len(),
{
    if a.len() == 0 {
    } else if (a[0] as int) < (b[0] as int) {
        if (b[0] as int) < (c[0] as int) {
        } else {
            assert(b[0] == c[0]);
        }
    } else {
        assert(a[0] == b[0]);
        if (b[0] as int) < (c[0] as int) {
        } else {
            assert(b[0] == c[0]);
            lemma_chars_lt_trans(a.skip(1), b.skip(1), c.skip(1));
        }
    }
}

pub proof fn lemma_step_lt_trichotomy(a: StepView, b: StepView)
    ensures
        step_lt(a, b) || step_lt(b, a) || a == b,
        step_lt(a, b) ==> !step_lt(b, a) && a != b,
{
    match (a, b) {
        (StepView::Key(x), StepView::Key(y)) => lemma_chars_lt_trichotomy(x, y),
        _ => {},
    }
}

pub proof fn lemma_step_lt_trans(a: StepView, b: StepView, c: StepView)
    requires
        step_lt(a, b),
        step_lt(b, c),
    ensures
        step_lt(a, c),
{
    match (a, b) {
        (StepView::Key(x), StepView::Key(y)) => match c {
            StepView::Key(z) => lemma_chars_lt_trans(x, y, z),
            _ => {},
        },
        _ => {},
    }
}

pub proof fn lemma_path_lt_trichotomy(a: Seq<StepView>, b: Seq<StepView>)
    ensures
        path_lt(a, b) || path_lt(b, a) || a == b,
        path_lt(a, b) ==> !path_lt(b, a) && a != b,
    decreases a.len(),
{
    if a.len() == 0 {
        if b.len() == 0 {
            assert(a =~= b);
        }
    } else if b.len() == 0 {
    } else {
        lemma_step_lt_trichotomy(a[0], b[0]);
        if a[0] == b[0] {
            lemma_path_lt_trichotomy(a.skip(1), b.skip(1));
            if a.skip(1) == b.skip(1) {
                assert(forall|i: int| 1 <= i < a.len() ==> a[i] == b[i]) by {
                    assert(forall|i: int|
                        1 <= i < a.len() ==> a[i] == a.skip(1)[i - 1] && b[i] == b.skip(1)[i - 1]);
                }
                assert(a =~= b);
            }
            if a == b {
                assert(a.skip(1) =~= b.skip(1));
            }
        }
    }
}

pub proof fn lemma_path_lt_trans(a: Seq<StepView>, b: Seq<StepView>, c: Seq<StepView>)
    requires
        path_lt(a, b),
        path_lt(b, c),
    ensures
        path_lt(a, c),
    decreases a.len(),
{
    if a.len() == 0 {
    } else if step_lt(a[0], b[0]) {
        if step_lt(b[0], c[0]) {
            lemma_step_lt_trans(a[0], b[0], c[0]);
        } else {
            lemma_step_lt_trichotomy(b[0], c[0]);
            assert(b[0] == c[0]);
        }
    } else {
        assert(a[0] == b[0]);
        if step_lt(b[0], c[0]) {
        } else {
            assert(b[0] == c[0]);
            lemma_path_lt_trans(a.skip(1), b.skip(1), c.skip(1));
        }
    }
}

/// A path sorts at or after each of its prefixes.
pub proof fn lemma_prefix_le(p: Seq<StepView>, k: Seq<StepView>)
    requires
        is_prefix(p, k),
    ensures
        path_le(p, k),
    decreases p.len(),
{
    if p.len() == 0 {
        if k.len() == 0 {
            assert(p =~= k);
        }
    } else {
        assert(is_prefix(p.skip(1), k.skip(1))) by {
            assert(forall|i: int|
                0 <= i < p.skip(1).len() ==> k.skip(1)[i] == #[trigger] p.skip(1)[i]);
        }
        lemma_prefix_le(p.skip(1), k.skip(1));
        if p.skip(1) == k.skip(1) && p.len() == k.len() {
            assert(p =~= k);
        }
    }
}

/// Once a scan in ascending path order reaches a path at or above `p` that
/// does not carry `p` as a prefix, no later path carries it either.
pub proof fn lemma_prefix_window(p: Seq<StepView>, k: Seq<StepView>, x: Seq<StepView>)
    requires
        path_le(p, k),
        !is_prefix(p, k),
        is_prefix(p, x),
    ensures
        path_lt(x, k),
    decreases p.len(),
{
    if p.len() == 0 {
        assert(is_prefix(p, k));
    } else {
        if k.len() == 0 {
            assert(!path_lt(p, k));
            assert(p != k);
            assert(false);
        }
        assert(x.len() >= p.len());
        assert(x[0] == p[0]);
        if path_lt(p, k) {
            if step_lt(p[0], k[0]) {
                assert(path_lt(x, k));
            } else if p[0] == k[0] {
                assert(path_lt(p.skip(1), k.skip(1)));
                assert(!is_prefix(p.skip(1), k.skip(1))) by {
                    if is_prefix(p.skip(1), k.skip(1)) {
                        assert(forall|i: int| 0 <= i < p.len() ==> k[i] == #[trigger] p[i]) by {
                            assert(forall|i: int|
                                1 <= i < p.len() ==> k.skip(1)[i - 1] == #[trigger] p.skip(1)[i
                                    - 1]);
                            assert(forall|i: int|
                                1 <= i < p.len() ==> k[i] == k.skip(1)[i - 1] && p[i] == p.skip(1)[
                                    i - 1]);
                        }
                        assert(is_prefix(p, k));
                    }
                }
                assert(is_prefix(p.skip(1), x.skip(1))) by {
                    assert(forall|i: int|
                        0 <= i < p.skip(1).len() ==> x.skip(1)[i] == #[trigger] p.skip(1)[i]);
                }
                lemma_prefix_window(p.skip(1), k.skip(1), x.skip(1));
                assert(x[0] == k[0]);
                assert(path_lt(x, k));
            } else {
                // p[0] != k[0] and !step_lt(p[0], k[0]) contradicts path_lt(p, k)
                assert(false);
            }
        } else {
            assert(p == k);
            assert(is_prefix(p, k)) by {
                assert(forall|i: int| 0 <= i < p.len() ==> k[i] == #[trigger] p[i]);
            }
            assert(false);
        }
    }
}

// ---------------------------------------------------------------------------
// Parsing: a slash-delimited text splits into segments; a non-empty segment
// of decimal digits whose value fits in `usize` is an index, anything else
// (the empty segment included) is a key.
// ---------------------------------------------------------------------------

pub open spec fn is_digit(c: char) -> bool {
    48 <= c as int <= 57
}

pub open spec fn all_digits(s: Seq<char>) -> bool {
    forall|i: int| 0 <= i < s.len() ==> is_digit(#[trigger] s[i])
}

/// The numeric value of a sequence of decimal digits.
pub open spec fn digits_val(s: Seq<char>) -> int
    decreases s.len(),
{
    if s.len() == 0 {
        0
    } else {
        digits_val(s.drop_last()) * 10 + (s.last() as int - 48)
    }
}

/// How one segment of path text is read.
pub open spec fn parse_seg(s: Seq<char>) -> StepView {
    if s.len() > 0 && all_digits(s) && digits_val(s) <= usize::MAX as int {
        StepView::Index(digits_val(s))
    } else {
        StepView::Key(s)
    }
}

/// The segments of a text, split on `'/'`.  Splitting always yields at least
/// one segment; the empty text yields one empty segment.
pub open spec fn split_chars(s: Seq<char>) -> Seq<Seq<char>>
    decreases s.len(),
{
    if s.len() == 0 {
        seq![Seq::<char>::empty()]
    } else if s[0] == '/' {
        seq![Seq::<char>::empty()] + split_chars(s.skip(1))
    } else {
        let rest = split_chars(s.skip(1));
        seq![seq![s[0]] + rest[0]] + rest.skip(1)
    }
}

/// The steps of a sequence of segments.
pub open spec fn parse_segs(segs: Seq<Seq<char>>) -> Seq<StepView> {
    segs.map_values(|seg: Seq<char>| parse_seg(seg))
}

/// How a whole path text is read.
pub open spec fn parse_path(s: Seq<char>) -> Seq<StepView> {
    parse_segs(split_chars(s))
}

proof fn lemma_parse_segs_push(segs: Seq<Seq<char>>, t: Seq<char>)
    ensures
        parse_segs(segs.push(t)) =~= parse_segs(segs).push(parse_seg(t)),
{
}

proof fn lemma_steps_view_push(s: Seq<Step>, x: Step)
    ensures
        steps_view(s.push(x)) =~= steps_view(s).push(x@),
{
}

pub proof fn lemma_split_nonempty(s: Seq<char>)
    ensures
        split_chars(s).len() >= 1,
    decreases s.len(),
{
    if s.len() != 0 {
        lemma_split_nonempty(s.skip(1));
    }
}

/// Splitting at the first slash detaches the text before it as one segment.
proof fn lemma_split_at_slash(s: Seq<char>, i: int)
    requires
        0 <= i < s.len(),
        s[i] == '/',
        forall|j: int| 0 <= j < i ==> s[j] != '/',
    ensures
        split_chars(s) == seq![s.take(i)] + split_chars(s.skip(i + 1)),
    decreases i,
{
    if i == 0 {
        assert(s.take(0) =~= Seq::<char>::empty());
        assert(s.skip(1) =~= s.skip(i + 1));
        assert(split_chars(s) =~= seq![s.take(i)] + split_chars(s.skip(i + 1)));
    } else {
        assert(s.skip(1)[i - 1] == '/');
        assert(forall|j: int| 0 <= j < i - 1 ==> s.skip(1)[j] != '/');
        lemma_split_at_slash(s.skip(1), i - 1);
        lemma_split_nonempty(s.skip(1).skip(i));
        assert(s.skip(1).take(i - 1) =~= s.take(i).skip(1));
        assert(s.skip(1).skip(i) =~= s.skip(i + 1));
        assert(seq![s[0]] + s.take(i).skip(1) =~= s.take(i));
        let rest = split_chars(s.skip(1));
        assert(rest == seq![s.take(i).skip(1)] + split_chars(s.skip(i + 1)));
        assert(rest[0] == s.take(i).skip(1));
        assert(rest.skip(1) =~= split_chars(s.skip(i + 1)));
        assert(split_chars(s) =~= seq![s.take(i)] + split_chars(s.skip(i + 1)));
    }
}

/// A text without slashes is a single segment.
proof fn lemma_split_no_slash(s: Seq<char>)
    requires
        forall|j: int| 0 <= j < s.len() ==> s[j] != '/',
    ensures
        split_chars(s) == seq![s],
    decreases s.len(),
{
    if s.len() == 0 {
        assert(s =~= Seq::<char>::empty());
        assert(split_chars(s) =~= seq![s]);
    } else {
        lemma_split_no_slash(s.skip(1));
        let rest = split_chars(s.skip(1));
        assert(rest[0] == s.skip(1));
        assert(seq![s[0]] + s.skip(1) =~= s);
        assert(rest.skip(1) =~= Seq::<Seq<char>>::empty());
        assert(split_chars(s) =~= seq![s]);
    }
}

pub proof fn lemma_digits_val_nonneg(s: Seq<char>)
    requires
        all_digits(s),
    ensures
        digits_val(s) >= 0,
    decreases s.len(),
{
    if s.len() != 0 {
        assert(all_digits(s.drop_last()));
        lemma_digits_val_nonneg(s.drop_last());
    }
}

/// Appending digits never lowers the value.
proof fn lemma_digits_val_grows(s: Seq<char>, k: int)
    requires
        all_digits(s),
        0 <= k <= s.len(),
    ensures
        digits_val(s.take(k)) <= digits_val(s),
    decreases s.len() - k,
{
    if k == s.len() {
        assert(s.take(k) =~= s);
    } else {
        lemma_digits_val_grows(s, k + 1);
        assert(s.take(k + 1).drop_last() =~= s.take(k));
        assert(all_digits(s.take(k)));
        lemma_digits_val_nonneg(s.take(k));
        assert(digits_val(s.take(k + 1)) == digits_val(s.take(k)) * 10 + (s[k] as int - 48));
        assert(digits_val(s.take(k)) * 10 >= digits_val(s.take(k)));
    }
}

/// Reads one segment: a step.
fn parse_segment(seg: &str) -> (r: Step)
    ensures
        r@ == parse_seg(seg@),
{
    let n = seg.unicode_len();
    if n == 0 {
        return Step::Key(String::from_str(seg));
    }
    let mut val: usize = 0;
    let mut i: usize = 0;
    while i < n
        invariant
            0 <= i <= n,
            n == seg@.len(),
            all_digits(seg@.take(i as int)),
            val == digits_val(seg@.take(i as int)),
        decreases n - i,
    {
        let c = seg.get_char(i);
        let u = c as u32;
        if u < 48 || u > 57 {
            assert(!all_digits(seg@));
            return Step::Key(String::from_str(seg));
        }
        let d = (u - 48) as usize;
        if val > (usize::MAX - d) / 10 {
            // the value no longer fits in usize, so the segment is a key
            proof {
                vstd::arithmetic::div_mod::lemma_fundamental_div_mod(
                    usize::MAX as int - d as int,
                    10,
                );
                assert(seg@.take(i as int + 1).drop_last() =~= seg@.take(i as int));
                assert(digits_val(seg@.take(i as int + 1)) > usize::MAX as int);
                if all_digits(seg@) {
                    lemma_digits_val_grows(seg@, i as int + 1);
                }
            }
            return Step::Key(String::from_str(seg));
        }
        proof {
            vstd::arithmetic::div_mod::lemma_fundamental_div_mod(usize::MAX as int - d as int, 10);
            assert(seg@.take(i as int + 1).drop_last() =~= seg@.take(i as int));
        }
        val = val * 10 + d;
        i += 1;
    }
    proof {
        assert(seg@.take(n as int) =~= seg@);
    }
    Step::Index(val)
}

/// Reads a whole slash-delimited path text into its steps.
pub fn split_slash_path(slash_sep: &str) -> (r: Vec<Step>)
    ensures
        steps_view(r@) == parse_path(slash_sep@),
{
    let n = slash_sep.unicode_len();
    let mut segs: Vec<Step> = Vec::new();
    let ghost mut done: Seq<Seq<char>> = Seq::empty();
    let mut start: usize = 0;
    let mut i: usize = 0;
    proof {
        assert(slash_sep@.skip(0) =~= slash_sep@);
        assert(done + split_chars(slash_sep@) =~= split_chars(slash_sep@));
        assert(steps_view(segs@) =~= parse_segs(done));
    }
    while i < n
        invariant
            0 <= start <= i <= n,
            n == slash_sep@.len(),
            forall|j: int| start <= j < i ==> slash_sep@[j] != '/',
            split_chars(slash_sep@) == done + split_chars(slash_sep@.skip(start as int)),
            steps_view(segs@) == parse_segs(done),
        decreases n - i,
    {
        let c = slash_sep.get_char(i);
        if c == '/' {
            let piece = slash_sep.substring_char(start, i);
            let step = parse_segment(piece);
            segs.push(step);
            proof {
                let sv = slash_sep@;
                let tail = sv.skip(start as int);
                assert(tail[i - start] == '/');
                assert(forall|j: int| 0 <= j < i - start ==> tail[j] != '/');
                lemma_split_at_slash(tail, i as int - start as int);
                assert(tail.take(i as int - start as int) =~= sv.subrange(start as int, i as int));
                assert(tail.skip(i as int - start as int + 1) =~= sv.skip(i as int + 1));
                lemma_parse_segs_push(done, sv.subrange(start as int, i as int));
                lemma_steps_view_push(segs@.drop_last(), step);
                assert(segs@.drop_last().push(step) =~= segs@);
                done = done.push(sv.subrange(start as int, i as int));
                assert(split_chars(sv) =~= done + split_chars(sv.skip(i as int + 1)));
                assert(steps_view(segs@) =~= parse_segs(done));
            }
            start = i + 1;
        }
        i += 1;
    }
    let piece = slash_sep.substring_char(start, n);
    let step = parse_segment(piece);
    segs.push(step);
    proof {
        let sv = slash_sep@;
        let tail = sv.skip(start as int);
        assert(forall|j: int| 0 <= j < tail.len() ==> tail[j] != '/');
        lemma_split_no_slash(tail);
        assert(tail =~= sv.subrange(start as int, n as int));
        assert(split_chars(sv) =~= done.push(tail));
        lemma_parse_segs_push(done, tail);
        lemma_steps_view_push(segs@.drop_last(), step);
        assert(segs@.drop_last().push(step) =~= segs@);
        assert(steps_view(segs@) =~= parse_segs(done.push(tail)));
    }
    segs
}

// ---------------------------------------------------------------------------
// Construction.
// ---------------------------------------------------------------------------

// ---------------------------------------------------------------------------
// Display: steps re-join with '/'; a key renders as its text, an index as its
// decimal digits.
// ---------------------------------------------------------------------------

pub open spec fn digit_char(d: int) -> char {
    if d == 0 {
        '0'
    } else if d == 1 {
        '1'
    } else if d == 2 {
        '2'
    } else if d == 3 {
        '3'
    } else if d == 4 {
        '4'
    } else if d == 5 {
        '5'
    } else if d == 6 {
        '6'
    } else if d == 7 {
        '7'
    } else if d == 8 {
        '8'
    } else {
        '9'
    }
}

/// The decimal digits of a non-negative number, most significant first.
pub open spec fn dec_digits(n: int) -> Seq<char>
    decreases n,
{
    if n < 0 {
        Seq::empty()
    } else if n < 10 {
        seq![digit_char(n)]
    } else {
        dec_digits(n / 10).push(digit_char(n % 10))
    }
}

/// The text of one step.
pub open spec fn step_text(s: StepView) -> Seq<char> {
    match s {
        StepView::Key(k) => k,
        StepView::Index(i) => dec_digits(i),
    }
}

/// The text of a whole path: step texts joined with '/'.
pub open spec fn path_text(p: Seq<StepView>) -> Seq<char>
    decreases p.len(),
{
    if p.len() == 0 {
        Seq::empty()
    } else if p.len() == 1 {
        step_text(p[0])
    } else {
        step_text(p[0]) + seq!['/'] + path_text(p.skip(1))
    }
}

pub proof fn lemma_path_text_push(p: Seq<StepView>, x: StepView)
    ensures
        path_text(p.push(x)) == if p.len() == 0 {
            step_text(x)
        } else {
            path_text(p) + seq!['/'] + step_text(x)
        },
    decreases p.len(),
{
    if p.len() == 0 {
        assert(p.push(x)[0] == x);
    } else if p.len() == 1 {
        assert(p.push(x).skip(1) =~= seq![x]);
        assert(path_text(seq![x]) == step_text(x));
    } else {
        assert(p.push(x).skip(1) =~= p.skip(1).push(x));
        lemma_path_text_push(p.skip(1), x);
        assert(step_text(p[0]) + seq!['/'] + (path_text(p.skip(1)) + seq!['/'] + step_text(x)) =~= (
        step_text(p[0]) + seq!['/'] + path_text(p.skip(1))) + seq!['/'] + step_text(x));
    }
}

/// The one-character text of a digit.
fn digit_str(d: usize) -> (r: &'static str)
    requires
        d < 10,
    ensures
        r@ == seq![digit_char(d as int)],
{
    proof {
        reveal_strlit("0");
        reveal_strlit("1");
        reveal_strlit("2");
        reveal_strlit("3");
        reveal_strlit("4");
        reveal_strlit("5");
        reveal_strlit("6");
        reveal_strlit("7");
        reveal_strlit("8");
        reveal_strlit("9");
    }
    let r = if d == 0 {
        "0"
    } else if d == 1 {
        "1"
    } else if d == 2 {
        "2"
    } else if d == 3 {
        "3"
    } else if d == 4 {
        "4"
    } else if d == 5 {
        "5"
    } else if d == 6 {
        "6"
    } else if d == 7 {
        "7"
    } else if d == 8 {
        "8"
    } else {
        "9"
    };
    proof {
        assert(r@ =~= seq![digit_char(d as int)]);
    }
    r
}

/// Appends the decimal digits of `n`.
fn append_index(out: &mut String, n: usize)
    ensures
        final(out)@ == old(out)@ + dec_digits(n as int),
    decreases n,
{
    if n >= 10 {
        append_index(out, n / 10);
    }
    let s = digit_str(n % 10);
    out.append(s);
    proof {
        if n < 10 {
            assert(old(out)@ + seq![digit_char(n as int)] =~= old(out)@ + dec_digits(n as int));
        } else {
            assert((old(out)@ + dec_digits(n as int / 10)) + seq![digit_char(n as int % 10)] =~= old(
                out,
            )@ + dec_digits(n as int));
        }
    }
}

impl Step {
    /// The display text of this step.
    pub fn to_string(&self) -> (r: String)
        ensures
            r@ == step_text(self@),
    {
        match self {
            Step::Key(s) => s.clone(),
            Step::Index(i) => {
                let mut out = String::new();
                append_index(&mut out, *i);
                proof {
                    assert(Seq::<char>::empty() + dec_digits(*i as int) =~= dec_digits(*i as int));
                }
                out
            },
        }
    }
}

/// The display text of a sequence of steps: step texts joined with '/'.
pub fn steps_to_string(steps: &Vec<Step>) -> (r: String)
    ensures
        r@ == path_text(steps_view(steps@)),
{
    let ghost pv = steps_view(steps@);
    let mut out = String::new();
    let mut i: usize = 0;
    while i < steps.len()
        invariant
            i <= steps.len(),
            pv == steps_view(steps@),
            pv.len() == steps.len(),
            out@ == path_text(pv.take(i as int)),
        decreases steps.len() - i,
    {
        if i > 0 {
            out.append("/");
        }
        let t = steps[i].to_string();
        out.append(t.as_str());
        proof {
            reveal_strlit("/");
            assert(pv[i as int] == steps@[i as int]@);
            lemma_path_text_push(pv.take(i as int), pv[i as int]);
            assert(pv.take(i as int).push(pv[i as int]) =~= pv.take(i as int + 1));
            assert("/"@ =~= seq!['/']);
            if i > 0 {
                assert((path_text(pv.take(i as int)) + seq!['/']) + step_text(pv[i as int])
                    =~= path_text(pv.take(i as int)) + seq!['/'] + step_text(pv[i as int]));
            }
        }
        i += 1;
    }
    proof {
        assert(pv.take(steps.len() as int) =~= pv);
    }
    out
}

impl Clone for Step {
    /// A clone carries the same value.
    fn clone(&self) -> (r: Self)
        ensures
            r == *self,
    {
        match self {
            Step::Key(s) => Step::Key(s.clone()),
            Step::Index(i) => Step::Index(*i),
        }
    }
}

impl SchemaPath {
    /// The path of exactly one step.
    pub fn singleton(step: Step) -> (r: Self)
        ensures
            r@ =~= seq![step@],
    {
        SchemaPath(vec![step])
    }

    /// The display text of this path.
    pub fn to_string(&self) -> (r: String)
        ensures
            r@ == path_text(self@),
    {
        steps_to_string(&self.0)
    }

    /// A new path: this one with one more step at the end.
    pub fn append(&self, step: Step) -> (r: SchemaPath)
        ensures
            r@ == self@.push(step@),
    {
        let mut v = self.clone_steps();
        v.push(step);
        proof {
            lemma_steps_view_push(v@.drop_last(), step);
            assert(v@.drop_last().push(step) =~= v@);
            assert(steps_view(v@) =~= self@.push(step@));
        }
        SchemaPath(v)
    }

    /// A new path: this one followed by all of another path's steps.
    pub fn concat(&self, other: &SchemaPath) -> (r: SchemaPath)
        ensures
            r@ == self@ + other@,
    {
        let mut v = self.clone_steps();
        let mut i: usize = 0;
        while i < other.0.len()
            invariant
                i <= other.0.len(),
                other@.len() == other.0.len(),
                steps_view(v@) =~= self@ + other@.take(i as int),
            decreases other.0.len() - i,
        {
            let st = other.0[i].clone();
            v.push(st);
            proof {
                lemma_steps_view_push(v@.drop_last(), st);
                assert(v@.drop_last().push(st) =~= v@);
                assert(st@ == other@[i as int]);
                assert((self@ + other@.take(i as int)).push(other@[i as int]) =~= self@
                    + other@.take(i as int + 1));
            }
            i += 1;
        }
        proof {
            assert(other@.take(other.0.len() as int) =~= other@);
            assert(self@ + Seq::<StepView>::empty() =~= self@);
        }
        SchemaPath(v)
    }

    /// A copy of the step vector, step for step.
    fn clone_steps(&self) -> (r: Vec<Step>)
        ensures
            r@ == self.0@,
    {
        let mut v: Vec<Step> = Vec::new();
        let mut i: usize = 0;
        while i < self.0.len()
            invariant
                i <= self.0.len(),
                v@ =~= self.0@.take(i as int),
            decreases self.0.len() - i,
        {
            v.push(self.0[i].clone());
            proof {
                assert(v@ =~= self.0@.take(i as int + 1));
            }
            i += 1;
        }
        proof {
            assert(self.0@.take(self.0.len() as int) =~= self.0@);
        }
        v
    }
}

impl Clone for SchemaPath {
    /// A clone carries the same steps.
    fn clone(&self) -> (r: Self)
        ensures
            r.0@ == self.0@,
            r@ == self@,
    {
        SchemaPath(self.clone_steps())
    }
}

// ---------------------------------------------------------------------------
// Executable comparison, matching the mathematical order above.
// ---------------------------------------------------------------------------

/// Three-way comparison of two texts; negative, zero or positive as the first
/// sorts below, equal to, or above the second.
fn chars_cmp(a: &String, b: &String) -> (r: i8)
    ensures
        r == 0i8 <==> a@ == b@,
        r < 0i8 <==> chars_lt(a@, b@),
        r > 0i8 <==> chars_lt(b@, a@),
{
    let alen = a.as_str().unicode_len();
    let blen = b.as_str().unicode_len();
    let mut i: usize = 0;
    loop
        invariant
            i <= alen,
            i <= blen,
            alen == a@.len(),
            blen == b@.len(),
            forall|j: int| 0 <= j < i ==> a@[j] == b@[j],
        ensures
            i >= alen || i >= blen,
            forall|j: int| 0 <= j < i ==> a@[j] == b@[j],
            i <= alen && i <= blen,
        decreases alen - i,
    {
        if i >= alen || i >= blen {
            break ;
        }
        let ca = a.as_str().get_char(i);
        let cb = b.as_str().get_char(i);
        if (ca as u32) < (cb as u32) {
            proof {
                lemma_chars_lt_from_diff(a@, b@, i as int);
                lemma_chars_lt_trichotomy(a@, b@);
            }
            return -1;
        }
        if (ca as u32) > (cb as u32) {
            proof {
                lemma_chars_lt_from_diff(b@, a@, i as int);
                lemma_chars_lt_trichotomy(b@, a@);
            }
            return 1;
        }
        proof {
            assert(a@[i as int] == b@[i as int]);
        }
        i += 1;
    }
    if alen < blen {
        proof {
            lemma_chars_lt_from_prefix(a@, b@);
            lemma_chars_lt_trichotomy(a@, b@);
        }
        -1
    } else if alen > blen {
        proof {
            lemma_chars_lt_from_prefix(b@, a@);
            lemma_chars_lt_trichotomy(b@, a@);
        }
        1
    } else {
        proof {
            assert(a@ =~= b@);
            lemma_chars_lt_trichotomy(a@, b@);
        }
        0
    }
}

/// A text whose characters match a longer text's start sorts below it.
proof fn lemma_chars_lt_from_prefix(a: Seq<char>, b: Seq<char>)
    requires
        a.len() < b.len(),
        forall|j: int| 0 <= j < a.len() ==> a[j] == b[j],
    ensures
        chars_lt(a, b),
    decreases a.len(),
{
    if a.len() > 0 {
        assert(forall|j: int| 0 <= j < a.skip(1).len() ==> a.skip(1)[j] == b.skip(1)[j]) by {
            assert(forall|j: int|
                0 <= j < a.skip(1).len() ==> a.skip(1)[j] == a[j + 1] && b.skip(1)[j] == b[j + 1]);
        }
        lemma_chars_lt_from_prefix(a.skip(1), b.skip(1));
    }
}

/// Texts equal before a position where the first has the smaller character:
/// the first sorts below.
proof fn lemma_chars_lt_from_diff(a: Seq<char>, b: Seq<char>, i: int)
    requires
        0 <= i < a.len(),
        i < b.len(),
        forall|j: int| 0 <= j < i ==> a[j] == b[j],
        (a[i] as int) < (b[i] as int),
    ensures
        chars_lt(a, b),
    decreases i,
{
    if i > 0 {
        assert(forall|j: int| 0 <= j < i - 1 ==> a.skip(1)[j] == b.skip(1)[j]) by {
            assert(forall|j: int|
                0 <= j < i - 1 ==> a.skip(1)[j] == a[j + 1] && b.skip(1)[j] == b[j + 1]);
        }
        assert(a.skip(1)[i - 1] == a[i] && b.skip(1)[i - 1] == b[i]);
        lemma_chars_lt_from_diff(a.skip(1), b.skip(1), i - 1);
    }
}

/// Three-way comparison of two steps.
fn step_cmp(a: &Step, b: &Step) -> (r: i8)
    ensures
        r == 0i8 <==> a@ == b@,
        r < 0i8 <==> step_lt(a@, b@),
        r > 0i8 <==> step_lt(b@, a@),
{
    match (a, b) {
        (Step::Key(x), Step::Key(y)) => chars_cmp(x, y),
        (Step::Key(_), Step::Index(_)) => -1,
        (Step::Index(_), Step::Key(_)) => 1,
        (Step::Index(x), Step::Index(y)) => {
            if *x < *y {
                -1
            } else if *x > *y {
                1
            } else {
                0
            }
        },
    }
}

/// Three-way comparison of two paths in the total path order.
pub fn path_cmp(a: &SchemaPath, b: &SchemaPath) -> (r: i8)
    ensures
        r == 0i8 <==> a@ == b@,
        r < 0i8 <==> path_lt(a@, b@),
        r > 0i8 <==> path_lt(b@, a@),
{
    let alen = a.0.len();
    let blen = b.0.len();
    let mut i: usize = 0;
    loop
        invariant
            i <= alen,
            i <= blen,
            alen == a@.len(),
            blen == b@.len(),
            forall|j: int| 0 <= j < i ==> a@[j] == b@[j],
        ensures
            i >= alen || i >= blen,
            forall|j: int| 0 <= j < i ==> a@[j] == b@[j],
            i <= alen && i <= blen,
        decreases alen - i,
    {
        if i >= alen || i >= blen {
            break ;
        }
        let c = step_cmp(&a.0[i], &b.0[i]);
        proof {
            assert(a@[i as int] == a.0@[i as int]@ && b@[i as int] == b.0@[i as int]@);
        }
        if c < 0 {
            proof {
                lemma_path_lt_from_diff(a@, b@, i as int);
                lemma_path_lt_trichotomy(a@, b@);
            }
            return -1;
        }
        if c > 0 {
            proof {
                lemma_path_lt_from_diff(b@, a@, i as int);
                lemma_path_lt_trichotomy(b@, a@);
            }
            return 1;
        }
        i += 1;
    }
    if alen < blen {
        proof {
            lemma_path_lt_from_prefix(a@, b@);
            lemma_path_lt_trichotomy(a@, b@);
        }
        -1
    } else if alen > blen {
        proof {
            lemma_path_lt_from_prefix(b@, a@);
            lemma_path_lt_trichotomy(b@, a@);
        }
        1
    } else {
        proof {
            assert(a@ =~= b@);
            lemma_path_lt_trichotomy(a@, b@);
        }
        0
    }
}

/// A path whose steps match a longer path's start sorts below it.
proof fn lemma_path_lt_from_prefix(a: Seq<StepView>, b: Seq<StepView>)
    requires
        a.len() < b.len(),
        forall|j: int| 0 <= j < a.len() ==> a[j] == b[j],
    ensures
        path_lt(a, b),
    decreases a.len(),
{
    if a.len() > 0 {
        assert(forall|j: int| 0 <= j < a.skip(1).len() ==> a.skip(1)[j] == b.skip(1)[j]) by {
            assert(forall|j: int|
                0 <= j < a.skip(1).len() ==> a.skip(1)[j] == a[j + 1] && b.skip(1)[j] == b[j + 1]);
        }
        lemma_path_lt_from_prefix(a.skip(1), b.skip(1));
    }
}

/// Paths equal before a position where the first has the smaller step: the
/// first sorts below.
proof fn lemma_path_lt_from_diff(a: Seq<StepView>, b: Seq<StepView>, i: int)
    requires
        0 <= i < a.len(),
        i < b.len(),
        forall|j: int| 0 <= j < i ==> a[j] == b[j],
        step_lt(a[i], b[i]),
    ensures
        path_lt(a, b),
    decreases i,
{
    if i > 0 {
        assert(forall|j: int| 0 <= j < i - 1 ==> a.skip(1)[j] == b.skip(1)[j]) by {
            assert(forall|j: int|
                0 <= j < i - 1 ==> a.skip(1)[j] == a[j + 1] && b.skip(1)[j] == b[j + 1]);
        }
        assert(a.skip(1)[i - 1] == a[i] && b.skip(1)[i - 1] == b[i]);
        lemma_path_lt_from_diff(a.skip(1), b.skip(1), i - 1);
    }
}

/// Whether the first path is a (strict or equal) prefix of the second.
pub fn path_has_prefix(p: &SchemaPath, k: &SchemaPath) -> (r: bool)
    ensures
        r == is_prefix(p@, k@),
{
    if p.0.len() > k.0.len() {
        return false;
    }
    let mut i: usize = 0;
    while i < p.0.len()
        invariant
            i <= p.0.len(),
            p.0.len() <= k.0.len(),
            p@.len() == p.0.len(),
            k@.len() == k.0.len(),
            forall|j: int| 0 <= j < i ==> k@[j] == p@[j],
        decreases p.0.len() - i,
    {
        let c = step_cmp(&p.0[i], &k.0[i]);
        proof {
            assert(p@[i as int] == p.0@[i as int]@ && k@[i as int] == k.0@[i as int]@);
        }
        if c != 0 {
            return false;
        }
        i += 1;
    }
    true
}

} // verus!
