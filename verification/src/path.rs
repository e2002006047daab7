//! Canonical internal paths.
//!
//! A platform path string is canonicalized into an ordered sequence of
//! non-empty components: the string is split on path separators,
//! current-directory components are dropped, a parent-directory
//! component pops the previously retained component, every survivor is
//! trimmed of surrounding whitespace, checked for control characters,
//! and brought into Unicode composed form.
use vstd::prelude::*;

use crate::error::PathError;
use unicode_normalization::UnicodeNormalization;

verus! {

/// Unicode composed form (NFC) of a character sequence, as the
/// normalization library computes it.
pub uninterp spec fn nfc_of(s: Seq<char>) -> Seq<char>;

/// Relies on unicode_normalization's `nfc` iterator: the composed form
/// depends on the characters alone, and normalization is idempotent
/// (Unicode Standard Annex #15).
#[verifier::external_body]
fn nfc(s: &str) -> (r: String)
    ensures
        r@ == nfc_of(s@),
        nfc_of(r@) == r@,
{
    s.nfc().collect()
}

/// Platform path separators, all recognized on every platform.
pub open spec fn is_sep(c: char) -> bool {
    c == '/' || c == '\\'
}

/// Whitespace as Unicode defines it (the White_Space property).
pub open spec fn is_space(c: char) -> bool {
    let u = c as u32;
    (0x9 <= u && u <= 0xD) || u == 0x20 || u == 0x85 || u == 0xA0 || u == 0x1680 || (0x2000 <= u
        && u <= 0x200A) || u == 0x2028 || u == 0x2029 || u == 0x202F || u == 0x205F || u == 0x3000
}

/// Control characters, which no component may hold. The private
/// component separator (unit separator, 0x1F) falls in this range.
pub open spec fn is_control(c: char) -> bool {
    let u = c as u32;
    u < 0x20 || u == 0x7F
}

fn is_sep_char(c: char) -> (r: bool)
    ensures
        r == is_sep(c),
{
    c == '/' || c == '\\'
}

fn is_space_char(c: char) -> (r: bool)
    ensures
        r == is_space(c),
{
    let u = c as u32;
    (0x9 <= u && u <= 0xD) || u == 0x20 || u == 0x85 || u == 0xA0 || u == 0x1680 || (0x2000 <= u
        && u <= 0x200A) || u == 0x2028 || u == 0x2029 || u == 0x202F || u == 0x205F || u == 0x3000
}

fn is_control_char(c: char) -> (r: bool)
    ensures
        r == is_control(c),
{
    let u = c as u32;
    u < 0x20 || u == 0x7F
}

/// The sequence with surrounding whitespace removed.
pub open spec fn trim_spec(s: Seq<char>) -> Seq<char>
    decreases s.len(),
{
    if s.len() == 0 {
        s
    } else if is_space(s[0]) {
        trim_spec(s.drop_first())
    } else if is_space(s[s.len() - 1]) {
        trim_spec(s.drop_last())
    } else {
        s
    }
}

/// A sequence whose ends are not whitespace is its own trim.
pub proof fn lemma_trim_fixed(s: Seq<char>)
    requires
        s.len() == 0 || (!is_space(s[0]) && !is_space(s[s.len() - 1])),
    ensures
        trim_spec(s) == s,
{
}

/// The trim of `s` is the subrange that remains after stripping the
/// all-whitespace margins `[0, lo)` and `[hi, len)`.
pub proof fn lemma_trim_subrange(s: Seq<char>, lo: int, hi: int)
    requires
        0 <= lo <= hi <= s.len(),
        forall|m: int| 0 <= m < lo ==> is_space(s[m]),
        forall|m: int| hi <= m < s.len() ==> is_space(s[m]),
        lo == hi || (!is_space(s[lo]) && !is_space(s[hi - 1])),
    ensures
        trim_spec(s) == s.subrange(lo, hi),
    decreases s.len(),
{
    if s.len() == 0 {
        assert(s.subrange(lo, hi) =~= s);
    } else if is_space(s[0]) {
        let d = s.drop_first();
        if lo == 0 {
            // The first character is whitespace, so the component is
            // all whitespace and the trim is empty.
            assert(lo == hi);
            lemma_trim_subrange(d, 0, 0);
            assert(s.subrange(0, 0) =~= d.subrange(0, 0));
        } else {
            lemma_trim_subrange(d, lo - 1, hi - 1);
            assert(d.subrange(lo - 1, hi - 1) =~= s.subrange(lo, hi));
        }
    } else if is_space(s[s.len() - 1]) {
        let d = s.drop_last();
        assert(hi < s.len());
        lemma_trim_subrange(d, lo, hi);
        assert(d.subrange(lo, hi) =~= s.subrange(lo, hi));
    } else {
        assert(lo == 0 && hi == s.len());
        assert(s.subrange(0, s.len() as int) =~= s);
    }
}

/// A component acceptable in a canonical path: non-empty, trimmed, not
/// a dot component, and free of control and separator characters.
pub open spec fn component_ok(c: Seq<char>) -> bool {
    &&& c.len() >= 1
    &&& !is_space(c[0])
    &&& !is_space(c[c.len() - 1])
    &&& c != seq!['.']
    &&& c != seq!['.', '.']
    &&& forall|k: int| 0 <= k < c.len() ==> !is_control(c[k]) && !is_sep(c[k])
}

/// A component as canonicalization produces it: acceptable and fixed
/// under normalization.
pub open spec fn canonical_component(c: Seq<char>) -> bool {
    component_ok(c) && nfc_of(c) == c
}

/// The structural part of the component invariant, checkable without
/// the normalization library: non-empty and free of control and
/// separator characters.
pub open spec fn wf_component(c: Seq<char>) -> bool {
    c.len() >= 1 && forall|k: int| 0 <= k < c.len() ==> !is_control(c[k]) && !is_sep(c[k])
}

/// Folds one raw component into the stack of retained components:
/// trim, drop `.` and empties, pop on `..`, reject control characters,
/// normalize, and validate the result.
pub open spec fn push_component(stack: Seq<Seq<char>>, cur: Seq<char>) -> Result<
    Seq<Seq<char>>,
    PathError,
> {
    let t = trim_spec(cur);
    if t.len() == 0 {
        Ok(stack)
    } else if t == seq!['.'] {
        Ok(stack)
    } else if t == seq!['.', '.'] {
        Ok(
            if stack.len() == 0 {
                stack
            } else {
                stack.drop_last()
            },
        )
    } else if exists|k: int| 0 <= k < t.len() && is_control(t[k]) {
        Err(PathError::UnrepresentableStr)
    } else {
        let m = nfc_of(t);
        if component_ok(m) {
            Ok(stack.push(m))
        } else {
            Err(PathError::UnrepresentableStr)
        }
    }
}

/// Canonicalization from position `i` on, with the pending component
/// `cur` and the components retained so far.
pub open spec fn canon_from(s: Seq<char>, i: int, cur: Seq<char>, stack: Seq<Seq<char>>) -> Result<
    Seq<Seq<char>>,
    PathError,
>
    decreases s.len() - i,
{
    if i >= s.len() {
        push_component(stack, cur)
    } else if is_sep(s[i]) {
        match push_component(stack, cur) {
            Err(e) => Err(e),
            Ok(st) => canon_from(s, i + 1, Seq::empty(), st),
        }
    } else {
        canon_from(s, i + 1, cur.push(s[i]), stack)
    }
}

/// Canonicalization of a whole path string: the retained components,
/// or the error that classifies why none could be formed.
pub open spec fn canon(s: Seq<char>) -> Result<Seq<Seq<char>>, PathError> {
    match canon_from(s, 0, Seq::empty(), Seq::empty()) {
        Err(e) => Err(e),
        Ok(stack) => if stack.len() == 0 {
            Err(PathError::EmptyPath)
        } else {
            Ok(stack)
        },
    }
}

/// Scanning a separator-free run appends it to the pending component.
pub proof fn lemma_canon_run(s: Seq<char>, i: int, j: int, cur: Seq<char>, stack: Seq<Seq<char>>)
    requires
        0 <= i <= j <= s.len(),
        forall|m: int| i <= m < j ==> !is_sep(s[m]),
    ensures
        canon_from(s, i, cur, stack) == canon_from(s, j, cur + s.subrange(i, j), stack),
    decreases j - i,
{
    if i == j {
        assert(cur + s.subrange(i, j) =~= cur);
    } else {
        lemma_canon_run(s, i + 1, j, cur.push(s[i]), stack);
        assert(cur.push(s[i]) + s.subrange(i + 1, j) =~= cur + s.subrange(i, j));
    }
}

/// A canonical internal path: a non-empty ordered sequence of
/// components, each non-empty and free of control and separator
/// characters.
#[derive(Debug)]
pub struct BoxPath {
    pub(crate) components: Vec<String>,
}

impl View for BoxPath {
    type V = Seq<Seq<char>>;

    closed spec fn view(&self) -> Seq<Seq<char>> {
        self.components.deep_view()
    }
}

impl BoxPath {
    /// The structural invariant every `BoxPath` value satisfies.
    pub open spec fn wf(&self) -> bool {
        self@.len() >= 1 && forall|i: int| 0 <= i < self@.len() ==> wf_component(self@[i])
    }

    /// Canonicalizes a platform path string, exactly as [`canon`]
    /// describes; every component of the result is canonical.
    #[verifier::loop_isolation(false)]
    pub fn new(input: &str) -> (r: Result<BoxPath, PathError>)
        ensures
            match r {
                Ok(p) => canon(input@) == Ok::<Seq<Seq<char>>, PathError>(p@) && p.wf()
                    && forall|i: int|
                    0 <= i < p@.len() ==> canonical_component(#[trigger] p@[i]),
                Err(e) => canon(input@) == Err::<Seq<Seq<char>>, PathError>(e),
            },
    {
        let n = input.unicode_len();
        let mut comps: Vec<String> = Vec::new();
        let mut i: usize = 0;
        proof {
            assert(comps.deep_view() =~= Seq::<Seq<char>>::empty());
        }
        while i < n
            invariant
                i <= n,
                canon_from(input@, 0, Seq::empty(), Seq::empty()) == canon_from(
                    input@,
                    i as int,
                    Seq::empty(),
                    comps.deep_view(),
                ),
                forall|k: int|
                    0 <= k < comps.deep_view().len() ==> canonical_component(
                        #[trigger] comps.deep_view()[k],
                    ),
            decreases n - i,
        {
            let ghost stack0 = comps.deep_view();
            // Scan the separator-free run [i, j).
            let mut j: usize = i;
            while j < n && !is_sep_char(input.get_char(j))
                invariant
                    i <= j <= n,
                    forall|m: int| i <= m < j ==> !is_sep(input@[m]),
                decreases n - j,
            {
                j = j + 1;
            }
            proof {
                lemma_canon_run(input@, i as int, j as int, Seq::empty(), stack0);
                assert(Seq::<char>::empty() + input@.subrange(i as int, j as int) =~= input@.subrange(
                    i as int,
                    j as int,
                ));
            }
            let ghost raw = input@.subrange(i as int, j as int);
            // Trim surrounding whitespace: the component is [lo, hi).
            let mut lo: usize = i;
            while lo < j && is_space_char(input.get_char(lo))
                invariant
                    i <= lo <= j,
                    forall|m: int| i <= m < lo ==> is_space(input@[m]),
                decreases j - lo,
            {
                lo = lo + 1;
            }
            let mut hi: usize = j;
            while hi > lo && is_space_char(input.get_char(hi - 1))
                invariant
                    lo <= hi <= j,
                    forall|m: int| hi <= m < j ==> is_space(input@[m]),
                decreases hi - lo,
            {
                hi = hi - 1;
            }
            let ghost t = trim_spec(raw);
            proof {
                lemma_trim_subrange(raw, lo - i, hi - i);
                assert(raw.subrange(lo - i, hi - i) =~= input@.subrange(lo as int, hi as int));
            }
            // Now t == input@.subrange(lo, hi).
            if lo == hi {
                // Nothing survives trimming: the component is dropped.
                proof {
                    assert(t =~= Seq::<char>::empty());
                }
            } else if hi - lo == 1 && input.get_char(lo) == '.' {
                proof {
                    assert(t =~= seq!['.']);
                }
            } else if hi - lo == 2 && input.get_char(lo) == '.' && input.get_char(lo + 1) == '.' {
                proof {
                    assert(t =~= seq!['.', '.']);
                }
                if comps.len() > 0 {
                    let ghost dv0 = comps.deep_view();
                    comps.pop();
                    proof {
                        assert(comps.deep_view() =~= dv0.drop_last());
                    }
                } else {
                    proof {
                        assert(comps.deep_view().len() == 0);
                    }
                }
            } else {
                proof {
                    assert(t.len() >= 1);
                    assert(t != seq!['.'] && t != seq!['.', '.']) by {
                        if hi - lo == 1 {
                            assert(t[0] == input@[lo as int]);
                        }
                        if hi - lo == 2 {
                            assert(t[0] == input@[lo as int]);
                            assert(t[1] == input@[lo + 1]);
                        }
                        assert(seq!['.'].len() == 1);
                        assert(seq!['.', '.'].len() == 2);
                    }
                }
                // Reject control characters before normalizing.
                let mut m: usize = lo;
                while m < hi && !is_control_char(input.get_char(m))
                    invariant
                        lo <= m <= hi,
                        forall|k: int| lo <= k < m ==> !is_control(input@[k]),
                    decreases hi - m,
                {
                    m = m + 1;
                }
                if m < hi {
                    proof {
                        assert(t[m - lo] == input@[m as int]);
                        assert(exists|k: int| 0 <= k < t.len() && is_control(t[k]));
                    }
                    return Err(PathError::UnrepresentableStr);
                }
                proof {
                    assert(forall|k: int| 0 <= k < t.len() ==> !is_control(#[trigger] t[k])) by {
                        assert(forall|k: int|
                            0 <= k < t.len() ==> t[k] == input@[lo + k] && !is_control(
                                #[trigger] input@[lo + k],
                            ));
                    }
                }
                let piece = input.substring_char(lo, hi);
                let normed = nfc(piece);
                if !component_check(&normed) {
                    return Err(PathError::UnrepresentableStr);
                }
                let ghost dv0 = comps.deep_view();
                comps.push(normed);
                proof {
                    assert(comps.deep_view() =~= dv0.push(nfc_of(t)));
                }
            }
            i = if j < n {
                j + 1
            } else {
                n
            };
        }
        proof {
            assert(canon_from(input@, n as int, Seq::empty(), comps.deep_view()) == Ok::<
                Seq<Seq<char>>,
                PathError,
            >(comps.deep_view())) by {
                assert(trim_spec(Seq::<char>::empty()).len() == 0);
            }
        }
        if comps.len() == 0 {
            Err(PathError::EmptyPath)
        } else {
            Ok(BoxPath { components: comps })
        }
    }
}

/// Validates a normalized component: non-empty, trimmed, not a dot
/// component, and free of control and separator characters.
#[verifier::loop_isolation(false)]
fn component_check(s: &String) -> (r: bool)
    ensures
        r == component_ok(s@),
{
    let t = s.as_str();
    let len = t.unicode_len();
    if len == 0 {
        return false;
    }
    if is_space_char(t.get_char(0)) {
        return false;
    }
    if is_space_char(t.get_char(len - 1)) {
        return false;
    }
    if len == 1 && t.get_char(0) == '.' {
        proof {
            assert(s@ =~= seq!['.']);
        }
        return false;
    }
    if len == 2 && t.get_char(0) == '.' && t.get_char(1) == '.' {
        proof {
            assert(s@ =~= seq!['.', '.']);
        }
        return false;
    }
    proof {
        if s@ == seq!['.'] {
            assert(s@.len() == 1 && s@[0] == '.');
        }
        if s@ == seq!['.', '.'] {
            assert(s@.len() == 2 && s@[0] == '.' && s@[1] == '.');
        }
    }
    let mut k: usize = 0;
    while k < len
        invariant
            len == s@.len(),
            k <= len,
            forall|m: int| 0 <= m < k ==> !is_control(s@[m]) && !is_sep(s@[m]),
        decreases len - k,
    {
        let c = t.get_char(k);
        if is_control_char(c) || is_sep_char(c) {
            return false;
        }
        k = k + 1;
    }
    true
}

/// Components joined by a separator character.
pub open spec fn join_sep(cs: Seq<Seq<char>>, sep: char) -> Seq<char>
    decreases cs.len(),
{
    if cs.len() == 0 {
        Seq::empty()
    } else if cs.len() == 1 {
        cs[0]
    } else {
        cs[0] + seq![sep] + join_sep(cs.drop_first(), sep)
    }
}

/// Splitting from position `i` on, with the pending piece `cur` and
/// the pieces already cut.
pub open spec fn split_from(
    s: Seq<char>,
    i: int,
    cur: Seq<char>,
    acc: Seq<Seq<char>>,
    sep: char,
) -> Seq<Seq<char>>
    decreases s.len() - i,
{
    if i >= s.len() {
        acc.push(cur)
    } else if s[i] == sep {
        split_from(s, i + 1, Seq::empty(), acc.push(cur), sep)
    } else {
        split_from(s, i + 1, cur.push(s[i]), acc, sep)
    }
}

/// The pieces of `s` cut at every occurrence of `sep`.
pub open spec fn split_sep(s: Seq<char>, sep: char) -> Seq<Seq<char>> {
    split_from(s, 0, Seq::empty(), Seq::empty(), sep)
}

/// Pieces already cut pass through splitting unchanged.
pub proof fn lemma_split_acc(s: Seq<char>, i: int, cur: Seq<char>, acc: Seq<Seq<char>>, sep: char)
    ensures
        split_from(s, i, cur, acc, sep) == acc + split_from(s, i, cur, Seq::empty(), sep),
    decreases s.len() - i,
{
    if i >= s.len() {
        assert(acc.push(cur) =~= acc + Seq::<Seq<char>>::empty().push(cur));
    } else if s[i] == sep {
        lemma_split_acc(s, i + 1, Seq::empty(), acc.push(cur), sep);
        lemma_split_acc(s, i + 1, Seq::empty(), Seq::<Seq<char>>::empty().push(cur), sep);
        assert(acc.push(cur) + split_from(s, i + 1, Seq::empty(), Seq::empty(), sep) =~= acc + (
        Seq::<Seq<char>>::empty().push(cur) + split_from(s, i + 1, Seq::empty(), Seq::empty(), sep)));
    } else {
        lemma_split_acc(s, i + 1, cur.push(s[i]), acc, sep);
    }
}

/// Scanning a separator-free run appends it to the pending piece.
pub proof fn lemma_split_run(
    s: Seq<char>,
    i: int,
    j: int,
    cur: Seq<char>,
    acc: Seq<Seq<char>>,
    sep: char,
)
    requires
        0 <= i <= j <= s.len(),
        forall|m: int| i <= m < j ==> s[m] != sep,
    ensures
        split_from(s, i, cur, acc, sep) == split_from(s, j, cur + s.subrange(i, j), acc, sep),
    decreases j - i,
{
    if i == j {
        assert(cur + s.subrange(i, j) =~= cur);
    } else {
        lemma_split_run(s, i + 1, j, cur.push(s[i]), acc, sep);
        assert(cur.push(s[i]) + s.subrange(i + 1, j) =~= cur + s.subrange(i, j));
    }
}

/// Splitting inverts joining, for non-empty separator-free pieces.
pub proof fn lemma_split_join(s: Seq<char>, pos: int, comps: Seq<Seq<char>>, sep: char)
    requires
        0 <= pos <= s.len(),
        s.subrange(pos, s.len() as int) == join_sep(comps, sep),
        comps.len() >= 1,
        forall|i: int, k: int|
            0 <= i < comps.len() && 0 <= k < comps[i].len() ==> #[trigger] comps[i][k] != sep,
    ensures
        split_from(s, pos, Seq::empty(), Seq::empty(), sep) == comps,
    decreases comps.len(),
{
    let c0 = comps[0];
    let j = pos + c0.len();
    if comps.len() > 1 {
        assert(join_sep(comps, sep) == comps[0] + seq![sep] + join_sep(comps.drop_first(), sep));
    }
    assert(s.len() - pos == join_sep(comps, sep).len());
    assert(j <= s.len());
    assert(forall|k: int| 0 <= k < c0.len() ==> join_sep(comps, sep)[k] == c0[k]);
    assert(forall|m: int| pos <= m < j ==> s[m] == c0[m - pos] && #[trigger] s[m] != sep) by {
        assert(forall|m: int|
            pos <= m < j ==> #[trigger] s.subrange(pos, s.len() as int)[m - pos] == s[m]);
    }
    lemma_split_run(s, pos, j, Seq::empty(), Seq::empty(), sep);
    assert(Seq::<char>::empty() + s.subrange(pos, j) =~= s.subrange(pos, j));
    assert(s.subrange(pos, j) =~= c0);
    if comps.len() == 1 {
        assert(j == s.len());
        assert(split_from(s, j, c0, Seq::empty(), sep) == Seq::<Seq<char>>::empty().push(c0));
        assert(Seq::<Seq<char>>::empty().push(c0) =~= comps);
    } else {
        assert(s[j] == sep) by {
            assert(s.subrange(pos, s.len() as int)[j - pos] == sep);
        }
        assert(split_from(s, j, c0, Seq::empty(), sep) == split_from(
            s,
            j + 1,
            Seq::empty(),
            Seq::<Seq<char>>::empty().push(c0),
            sep,
        ));
        assert(s.subrange(j + 1, s.len() as int) == join_sep(comps.drop_first(), sep)) by {
            assert(forall|m: int|
                0 <= m < s.len() - j - 1 ==> #[trigger] s.subrange(j + 1, s.len() as int)[m]
                    == s.subrange(pos, s.len() as int)[m + c0.len() + 1]);
            assert(s.subrange(j + 1, s.len() as int) =~= join_sep(comps.drop_first(), sep));
        }
        lemma_split_join(s, j + 1, comps.drop_first(), sep);
        lemma_split_acc(s, j + 1, Seq::empty(), Seq::<Seq<char>>::empty().push(c0), sep);
        assert(Seq::<Seq<char>>::empty().push(c0) + comps.drop_first() =~= comps);
    }
}

/// Canonicalizing the join of canonical components retains exactly
/// those components.
proof fn lemma_canon_join(s: Seq<char>, pos: int, comps: Seq<Seq<char>>, stack: Seq<Seq<char>>)
    requires
        0 <= pos <= s.len(),
        s.subrange(pos, s.len() as int) == join_sep(comps, '/'),
        comps.len() >= 1,
        forall|i: int| 0 <= i < comps.len() ==> canonical_component(#[trigger] comps[i]),
    ensures
        canon_from(s, pos, Seq::empty(), stack) == Ok::<Seq<Seq<char>>, PathError>(stack + comps),
    decreases comps.len(),
{
    let c0 = comps[0];
    let j = pos + c0.len();
    if comps.len() > 1 {
        assert(join_sep(comps, '/') == comps[0] + seq!['/'] + join_sep(comps.drop_first(), '/'));
    }
    assert(s.len() - pos == join_sep(comps, '/').len());
    assert(j <= s.len());
    assert(forall|k: int| 0 <= k < c0.len() ==> join_sep(comps, '/')[k] == c0[k]);
    assert forall|m: int| pos <= m < j implies s[m] == c0[m - pos] && !is_sep(#[trigger] s[m]) by {
        assert(s.subrange(pos, s.len() as int)[m - pos] == s[m]);
        assert(join_sep(comps, '/')[m - pos] == c0[m - pos]);
        assert(!is_sep(c0[m - pos]));
    }
    lemma_canon_run(s, pos, j, Seq::empty(), stack);
    assert(Seq::<char>::empty() + s.subrange(pos, j) =~= s.subrange(pos, j));
    assert(s.subrange(pos, j) =~= c0);
    assert(push_component(stack, c0) == Ok::<Seq<Seq<char>>, PathError>(stack.push(c0))) by {
        lemma_trim_fixed(c0);
    }
    if comps.len() == 1 {
        assert(j == s.len());
        assert(stack.push(c0) =~= stack + comps);
    } else {
        assert(s[j] == '/') by {
            assert(s.subrange(pos, s.len() as int)[j - pos] == '/');
        }
        assert(s.subrange(j + 1, s.len() as int) == join_sep(comps.drop_first(), '/')) by {
            assert(forall|m: int|
                0 <= m < s.len() - j - 1 ==> #[trigger] s.subrange(j + 1, s.len() as int)[m]
                    == s.subrange(pos, s.len() as int)[m + c0.len() + 1]);
            assert(s.subrange(j + 1, s.len() as int) =~= join_sep(comps.drop_first(), '/'));
        }
        lemma_canon_join(s, j + 1, comps.drop_first(), stack.push(c0));
        assert(stack.push(c0) + comps.drop_first() =~= stack + comps);
    }
}

/// Canonicalization is idempotent: canonicalizing the display form of
/// a canonical path yields the same components back.
pub proof fn lemma_canonicalize_idempotent(comps: Seq<Seq<char>>)
    requires
        comps.len() >= 1,
        forall|i: int| 0 <= i < comps.len() ==> canonical_component(#[trigger] comps[i]),
    ensures
        canon(join_sep(comps, '/')) == Ok::<Seq<Seq<char>>, PathError>(comps),
{
    let s = join_sep(comps, '/');
    assert(s.subrange(0, s.len() as int) =~= s);
    lemma_canon_join(s, 0, comps, Seq::empty());
    assert(Seq::<Seq<char>>::empty() + comps =~= comps);
}

/// Joining grows one component at a time from the left.
proof fn lemma_join_snoc(cs: Seq<Seq<char>>, sep: char)
    requires
        cs.len() >= 2,
    ensures
        join_sep(cs, sep) == join_sep(cs.drop_last(), sep) + seq![sep] + cs.last(),
    decreases cs.len(),
{
    if cs.len() == 2 {
        assert(cs.drop_first() =~= seq![cs[1]]);
        assert(cs.drop_last() =~= seq![cs[0]]);
        assert(join_sep(seq![cs[1]], sep) == cs[1]);
        assert(join_sep(seq![cs[0]], sep) == cs[0]);
    } else {
        lemma_join_snoc(cs.drop_first(), sep);
        assert(cs.drop_first().drop_last() =~= cs.drop_last().drop_first());
        assert(cs.drop_first().last() == cs.last());
        assert(cs.drop_last()[0] == cs[0]);
        assert(cs[0] + seq![sep] + (join_sep(cs.drop_last().drop_first(), sep) + seq![sep]
            + cs.last()) =~= (cs[0] + seq![sep] + join_sep(cs.drop_last().drop_first(), sep))
            + seq![sep] + cs.last());
    }
}

/// Joins the components of `v` with the single-character separator
/// that `sep` holds.
#[verifier::loop_isolation(false)]
fn join_components(v: &Vec<String>, sep: &str) -> (r: String)
    requires
        sep@.len() == 1,
    ensures
        r@ == join_sep(v.deep_view(), sep@[0]),
{
    let ghost cs = v.deep_view();
    let ghost sc = sep@[0];
    let mut out = String::new();
    let mut k: usize = 0;
    while k < v.len()
        invariant
            k <= v.len(),
            cs.len() == v.len(),
            out@ == join_sep(cs.take(k as int), sc),
        decreases v.len() - k,
    {
        if k > 0 {
            out.append(sep);
            proof {
                assert(sep@ =~= seq![sc]);
            }
        }
        out.append(v[k].as_str());
        proof {
            let done = cs.take(k + 1);
            if k == 0 {
                assert(done =~= seq![cs[0]]);
                assert(join_sep(done, sc) == cs[0]);
                assert(out@ =~= cs[0]);
            } else {
                lemma_join_snoc(done, sc);
                assert(done.drop_last() =~= cs.take(k as int));
                assert(done.last() == cs[k as int]);
            }
        }
        k = k + 1;
    }
    proof {
        assert(cs.take(v.len() as int) =~= cs);
    }
    out
}

impl BoxPath {
    /// Number of components.
    pub fn depth(&self) -> (r: usize)
        ensures
            r == self@.len(),
    {
        self.components.len()
    }

    /// The final component.
    pub fn filename(&self) -> (r: String)
        requires
            self.wf(),
        ensures
            r@ == self@.last(),
    {
        self.components[self.components.len() - 1].clone()
    }

    /// The path one level up: the same components with the last one
    /// removed; `None` for a path of a single component.
    pub fn parent(&self) -> (r: Option<BoxPath>)
        requires
            self.wf(),
        ensures
            match r {
                Some(p) => self@.len() >= 2 && p@ == self@.drop_last() && p.wf(),
                None => self@.len() == 1,
            },
    {
        if self.components.len() <= 1 {
            None
        } else {
            let mut c: Vec<String> = Vec::new();
            let m = self.components.len() - 1;
            let mut k: usize = 0;
            while k < m
                invariant
                    k <= m < self.components.len(),
                    self.wf(),
                    m == self.components.len() - 1,
                    c.deep_view() =~= self@.subrange(0, k as int),
                decreases m - k,
            {
                let ghost dv0 = c.deep_view();
                c.push(self.components[k].clone());
                proof {
                    assert(c.deep_view() =~= dv0.push(self@[k as int]));
                    assert(c.deep_view() =~= self@.subrange(0, k + 1));
                }
                k = k + 1;
            }
            proof {
                assert(self@.subrange(0, m as int) =~= self@.drop_last());
            }
            Some(BoxPath { components: c })
        }
    }

    /// The path of the first `d` components.
    pub fn prefix(&self, d: usize) -> (r: BoxPath)
        requires
            self.wf(),
            1 <= d <= self@.len(),
        ensures
            r@ == self@.take(d as int),
            r.wf(),
    {
        let mut c: Vec<String> = Vec::new();
        let mut k: usize = 0;
        while k < d
            invariant
                k <= d,
                self.wf(),
                d <= self.components@.len(),
                self@.len() == self.components@.len(),
                c.deep_view() =~= self@.subrange(0, k as int),
            decreases d - k,
        {
            let ghost dv0 = c.deep_view();
            c.push(self.components[k].clone());
            proof {
                assert(c.deep_view() =~= dv0.push(self@[k as int]));
                assert(c.deep_view() =~= self@.subrange(0, k + 1));
            }
            k = k + 1;
        }
        proof {
            assert(self@.subrange(0, d as int) =~= self@.take(d as int));
        }
        BoxPath { components: c }
    }

    /// Display form: the components joined by `/`.
    pub fn to_display(&self) -> (r: String)
        ensures
            r@ == join_sep(self@, '/'),
    {
        proof {
            reveal_strlit("/");
        }
        join_components(&self.components, "/")
    }

    /// Wire form: the components joined by the private unit separator.
    pub(crate) fn wire_string(&self) -> (r: String)
        ensures
            r@ == join_sep(self@, '\u{1f}'),
    {
        proof {
            reveal_strlit("\u{1f}");
        }
        join_components(&self.components, "\u{1f}")
    }

    /// Rebuilds a path from its wire form: the pieces between unit
    /// separators, each of which must be a well-formed component.
    #[verifier::loop_isolation(false)]
    pub(crate) fn from_wire(s: &str) -> (r: Option<BoxPath>)
        ensures
            match r {
                Some(p) => parse_wire_path(s@) == Some(p@) && p.wf(),
                None => parse_wire_path(s@) is None,
            },
    {
        let n = s.unicode_len();
        let mut comps: Vec<String> = Vec::new();
        let mut i: usize = 0;
        let ghost sep = '\u{1f}';
        proof {
            assert(comps.deep_view() =~= Seq::<Seq<char>>::empty());
        }
        loop
            invariant
                i <= n,
                i == n ==> n == 0,
                split_sep(s@, sep) == split_from(s@, i as int, Seq::empty(), comps.deep_view(), sep),
                forall|k: int|
                    0 <= k < comps.deep_view().len() ==> wf_component(
                        #[trigger] comps.deep_view()[k],
                    ),
            decreases n - i,
        {
            let ghost acc0 = comps.deep_view();
            // Scan the separator-free piece [i, j) and validate it.
            let mut j: usize = i;
            let mut bad = false;
            while j < n && s.get_char(j) != '\u{1f}'
                invariant
                    i <= j <= n,
                    forall|m: int| i <= m < j ==> s@[m] != sep,
                    bad == exists|m: int| i <= m < j && (is_control(s@[m]) || is_sep(s@[m])),
                decreases n - j,
            {
                let c = s.get_char(j);
                if is_control_char(c) || is_sep_char(c) {
                    bad = true;
                }
                j = j + 1;
            }
            let ghost piece = s@.subrange(i as int, j as int);
            proof {
                lemma_split_run(s@, i as int, j as int, Seq::empty(), acc0, sep);
                assert(Seq::<char>::empty() + piece =~= piece);
            }
            if bad || j == i {
                proof {
                    if bad {
                        let m = choose|m: int|
                            i <= m < j && (is_control(s@[m]) || is_sep(s@[m]));
                        assert(piece[m - i] == s@[m]);
                        assert(!wf_component(piece));
                    } else {
                        assert(piece.len() == 0);
                    }
                    lemma_wire_piece_bad(s@, i as int, j as int, acc0, sep);
                }
                return None;
            }
            let got = s.substring_char(i, j).to_owned();
            let ghost dv0 = comps.deep_view();
            comps.push(got);
            proof {
                assert(comps.deep_view() =~= dv0.push(piece));
                assert(wf_component(piece)) by {
                    assert(forall|k: int|
                        0 <= k < piece.len() ==> piece[k] == s@[i + k] && !is_control(
                            #[trigger] s@[i + k],
                        ) && !is_sep(s@[i + k]));
                }
            }
            if j >= n {
                proof {
                    assert(split_from(s@, j as int, piece, acc0, sep) == acc0.push(piece));
                    assert(parse_wire_path(s@) == Some(comps.deep_view()));
                }
                return Some(BoxPath { components: comps });
            }
            i = j + 1;
            proof {
                if i > n {
                    assert(false);
                }
                if i == n {
                    // The string ends on a separator: the final piece
                    // is empty and the parse fails.
                    assert(split_from(s@, n as int, Seq::empty(), comps.deep_view(), sep)
                        == comps.deep_view().push(Seq::<char>::empty()));
                }
            }
            if i == n {
                proof {
                    let ps = split_sep(s@, sep);
                    assert(ps.last() == Seq::<char>::empty());
                    assert(!wf_component(ps.last()));
                }
                return None;
            }
        }
    }
}

/// A split whose pieces are not all well-formed components fails the
/// wire parse.
proof fn lemma_wire_piece_bad(s: Seq<char>, i: int, j: int, acc: Seq<Seq<char>>, sep: char)
    requires
        sep == '\u{1f}',
        0 <= i <= j <= s.len(),
        j == s.len() || s[j] == sep,
        split_sep(s, sep) == split_from(s, j, s.subrange(i, j), acc, sep),
        !wf_component(s.subrange(i, j)),
    ensures
        parse_wire_path(s) is None,
{
    let piece = s.subrange(i, j);
    let ps = split_sep(s, sep);
    if j == s.len() {
        assert(ps == acc.push(piece));
        assert(ps[acc.len() as int] == piece);
    } else {
        lemma_split_acc(s, j + 1, Seq::empty(), acc.push(piece), sep);
        assert(ps == acc.push(piece) + split_from(s, j + 1, Seq::empty(), Seq::empty(), sep));
        assert(ps[acc.len() as int] == piece);
    }
    assert(0 <= acc.len() < ps.len());
    assert(!wf_component(ps[acc.len() as int]));
}

/// The wire parse: the pieces between unit separators, provided every
/// piece is a well-formed component.
pub open spec fn parse_wire_path(s: Seq<char>) -> Option<Seq<Seq<char>>> {
    let ps = split_sep(s, '\u{1f}');
    if ps.len() >= 1 && forall|i: int| 0 <= i < ps.len() ==> wf_component(#[trigger] ps[i]) {
        Some(ps)
    } else {
        None
    }
}

/// The wire form of a well-formed path parses back to the same
/// components.
pub proof fn lemma_wire_round_trip(comps: Seq<Seq<char>>)
    requires
        comps.len() >= 1,
        forall|i: int| 0 <= i < comps.len() ==> wf_component(#[trigger] comps[i]),
    ensures
        parse_wire_path(join_sep(comps, '\u{1f}')) == Some(comps),
{
    let sep = '\u{1f}';
    let s = join_sep(comps, sep);
    assert(s.subrange(0, s.len() as int) =~= s);
    assert(forall|i: int, k: int|
        0 <= i < comps.len() && 0 <= k < comps[i].len() ==> #[trigger] comps[i][k] != sep) by {
        assert(forall|i: int, k: int|
            0 <= i < comps.len() && 0 <= k < comps[i].len() ==> !is_control(#[trigger] comps[i][k]));
    }
    lemma_split_join(s, 0, comps, sep);
}

impl PartialEq for BoxPath {
    /// Two paths are equal when their component sequences are equal.
    fn eq(&self, other: &Self) -> (r: bool) {
        if self.components.len() != other.components.len() {
            proof {
                assert(self@.len() != other@.len());
            }
            return false;
        }
        let n = self.components.len();
        let mut k: usize = 0;
        while k < n
            invariant
                k <= n,
                n == self@.len() == other@.len(),
                n == self.components.len() == other.components.len(),
                forall|m: int| 0 <= m < k ==> self@[m] == other@[m],
            decreases n - k,
        {
            if !(self.components[k] == other.components[k]) {
                proof {
                    assert(self@[k as int] != other@[k as int]);
                }
                return false;
            }
            k = k + 1;
        }
        proof {
            assert(self@ =~= other@);
        }
        true
    }
}

impl vstd::std_specs::cmp::PartialEqSpecImpl for BoxPath {
    open spec fn obeys_eq_spec() -> bool {
        true
    }

    open spec fn eq_spec(&self, other: &Self) -> bool {
        self@ == other@
    }
}

impl Eq for BoxPath {

}

} // verus!
