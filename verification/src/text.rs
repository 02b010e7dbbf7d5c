//! Character-level text transformations: decimal-separator normalization,
//! splitting on a separator character, and line-ending cleanup.

use vstd::prelude::*;

verus! {

/// A character sequence with every comma replaced by a period, the
/// normalization applied to the raw file before any field-aware parsing.
pub open spec fn normalize(s: Seq<char>) -> Seq<char> {
    s.map_values(|c: char| if c == ',' { '.' } else { c })
}

/// Replaces every comma in `s` with a period.
pub fn normalize_text(s: &str) -> (r: String)
    ensures
        r@ == normalize(s@),
{
    let n = s.unicode_len();
    let mut out = String::new();
    let mut i: usize = 0;
    while i < n
        invariant
            n == s@.len(),
            i <= n,
            out@ == normalize(s@.subrange(0, i as int)),
        decreases n - i,
    {
        let ghost prev = out@;
        if s.get_char(i) == ',' {
            proof {
                reveal_strlit(".");
            }
            out.append(".");
            assert(out@ =~= prev.push('.'));
        } else {
            let piece = s.substring_char(i, i + 1);
            out.append(piece);
            assert(out@ =~= prev.push(s@[i as int]));
        }
        proof {
            assert(out@ =~= normalize(s@.subrange(0, i + 1)));
        }
        i += 1;
    }
    proof {
        assert(s@.subrange(0, n as int) =~= s@);
    }
    out
}

/// The segments of `s` between occurrences of `sep`, in order. A sequence
/// with no separator is one segment; each separator ends a segment, so the
/// result always holds one segment more than `s` holds separators.
pub open spec fn split_on(s: Seq<char>, sep: char) -> Seq<Seq<char>>
    decreases s.len(),
{
    if s.len() == 0 {
        seq![Seq::<char>::empty()]
    } else if s[0] == sep {
        seq![Seq::<char>::empty()] + split_on(s.drop_first(), sep)
    } else {
        let rest = split_on(s.drop_first(), sep);
        seq![seq![s[0]] + rest[0]] + rest.drop_first()
    }
}

pub proof fn lemma_split_len(s: Seq<char>, sep: char)
    ensures
        split_on(s, sep).len() >= 1,
    decreases s.len(),
{
    if s.len() > 0 {
        lemma_split_len(s.drop_first(), sep);
    }
}

/// A sequence free of the separator splits into itself alone.
pub proof fn lemma_split_none(s: Seq<char>, sep: char)
    requires
        forall|j: int| 0 <= j < s.len() ==> s[j] != sep,
    ensures
        split_on(s, sep) == seq![s],
    decreases s.len(),
{
    if s.len() == 0 {
        assert(split_on(s, sep) =~~= seq![s]);
    } else {
        lemma_split_none(s.drop_first(), sep);
        lemma_split_len(s.drop_first(), sep);
        assert(seq![s[0]] + s.drop_first() =~= s);
        assert(split_on(s, sep) =~~= seq![s]);
    }
}

/// Splitting a sequence whose first separator stands at `k` yields the
/// prefix before `k` and then the segments of what follows `k`.
pub proof fn lemma_split_first(s: Seq<char>, sep: char, k: int)
    requires
        0 <= k < s.len(),
        s[k] == sep,
        forall|j: int| 0 <= j < k ==> s[j] != sep,
    ensures
        split_on(s, sep) == seq![s.subrange(0, k)] + split_on(
            s.subrange(k + 1, s.len() as int),
            sep,
        ),
    decreases k,
{
    if k == 0 {
        assert(s.subrange(0, 0) =~= Seq::<char>::empty());
        assert(s.subrange(1, s.len() as int) =~= s.drop_first());
        assert(split_on(s, sep) =~~= seq![s.subrange(0, 0)] + split_on(
            s.subrange(1, s.len() as int),
            sep,
        ));
    } else {
        let t = s.drop_first();
        lemma_split_first(t, sep, k - 1);
        lemma_split_len(t.subrange(k, t.len() as int), sep);
        assert(seq![s[0]] + t.subrange(0, k - 1) =~= s.subrange(0, k));
        assert(t.subrange(k, t.len() as int) =~= s.subrange(k + 1, s.len() as int));
        assert(split_on(s, sep) =~~= seq![s.subrange(0, k)] + split_on(
            s.subrange(k + 1, s.len() as int),
            sep,
        ));
    }
}

/// Every segment of a split is free of the separator, and free of any
/// other character that the split text does not hold.
pub proof fn lemma_split_segments_free(s: Seq<char>, sep: char, c: char)
    requires
        c == sep || !s.contains(c),
    ensures
        forall|k: int|
            0 <= k < split_on(s, sep).len() ==> !(#[trigger] split_on(s, sep)[k]).contains(c),
    decreases s.len(),
{
    if s.len() == 0 {
        assert(!split_on(s, sep)[0].contains(c));
    } else {
        if c != sep {
            assert(!s.drop_first().contains(c)) by {
                if s.drop_first().contains(c) {
                    let i = choose|i: int|
                        0 <= i < s.drop_first().len() && s.drop_first()[i] == c;
                    assert(s[i + 1] == c);
                }
            }
        }
        lemma_split_segments_free(s.drop_first(), sep, c);
        let rest = split_on(s.drop_first(), sep);
        if s[0] == sep {
            assert forall|k: int|
                0 <= k < split_on(s, sep).len() implies !(#[trigger] split_on(s, sep)[
            k]).contains(c) by {
                if k == 0 {
                    assert(!Seq::<char>::empty().contains(c));
                } else {
                    assert(split_on(s, sep)[k] == rest[k - 1]);
                }
            }
        } else {
            assert(s[0] != c);
            lemma_split_len(s.drop_first(), sep);
            assert forall|k: int|
                0 <= k < split_on(s, sep).len() implies !(#[trigger] split_on(s, sep)[
            k]).contains(c) by {
                if k == 0 {
                    let first = seq![s[0]] + rest[0];
                    assert(split_on(s, sep)[0] == first);
                    if first.contains(c) {
                        let i = choose|i: int| 0 <= i < first.len() && first[i] == c;
                        if i == 0 {
                            assert(s[0] == c);
                        } else {
                            assert(rest[0][i - 1] == c);
                            assert(rest[0].contains(c));
                        }
                    }
                } else {
                    assert(split_on(s, sep)[k] == rest.drop_first()[k - 1]);
                    assert(rest.drop_first()[k - 1] == rest[k]);
                }
            }
        }
    }
}

/// A line keeps its freedom of a character when its trailing carriage
/// return is removed.
pub proof fn lemma_strip_cr_free(l: Seq<char>, c: char)
    requires
        !l.contains(c),
    ensures
        !strip_cr(l).contains(c),
{
    if strip_cr(l).contains(c) {
        let i = choose|i: int| 0 <= i < strip_cr(l).len() && strip_cr(l)[i] == c;
        assert(l[i] == c);
    }
}

/// The views of a sequence of owned strings.
pub open spec fn str_views(v: Seq<String>) -> Seq<Seq<char>> {
    v.map_values(|s: String| s@)
}

/// Splits `s` into the segments between occurrences of `sep`.
pub fn split_char(s: &str, sep: char) -> (r: Vec<String>)
    ensures
        str_views(r@) == split_on(s@, sep),
{
    let n = s.unicode_len();
    let mut res: Vec<String> = Vec::new();
    proof {
        assert(s@.subrange(0, n as int) =~= s@);
        assert(str_views(res@) + split_on(s@, sep) =~= split_on(s@, sep));
    }
    let mut start: usize = 0;
    let mut i: usize = 0;
    while i < n
        invariant
            n == s@.len(),
            start <= i <= n,
            forall|j: int| start <= j < i ==> s@[j] != sep,
            split_on(s@, sep) == str_views(res@) + split_on(
                s@.subrange(start as int, n as int),
                sep,
            ),
        decreases n - i,
    {
        if s.get_char(i) == sep {
            let ghost t = s@.subrange(start as int, n as int);
            let seg = s.substring_char(start, i).to_owned();
            proof {
                lemma_split_first(t, sep, i - start);
                assert(t.subrange(0, i - start) =~= s@.subrange(start as int, i as int));
                assert(t.subrange(i - start + 1, t.len() as int) =~= s@.subrange(
                    i + 1,
                    n as int,
                ));
            }
            let ghost prev = res@;
            res.push(seg);
            proof {
                assert(str_views(res@) =~= str_views(prev).push(seg@));
            }
            start = i + 1;
        }
        i += 1;
    }
    let ghost t = s@.subrange(start as int, n as int);
    let seg = s.substring_char(start, n).to_owned();
    proof {
        lemma_split_none(t, sep);
    }
    let ghost prev = res@;
    res.push(seg);
    proof {
        assert(str_views(res@) =~= str_views(prev).push(seg@));
        assert(str_views(prev).push(seg@) =~= str_views(prev) + seq![t]);
    }
    res
}

/// A line with any trailing carriage return removed.
pub open spec fn strip_cr(l: Seq<char>) -> Seq<char> {
    if l.len() > 0 && l[l.len() - 1] == '\r' {
        l.drop_last()
    } else {
        l
    }
}

/// Removes a single trailing carriage return from `s`, if one is there.
pub fn strip_cr_text(s: &str) -> (r: String)
    ensures
        r@ == strip_cr(s@),
{
    let n = s.unicode_len();
    if n > 0 && s.get_char(n - 1) == '\r' {
        let r = s.substring_char(0, n - 1).to_owned();
        proof {
            assert(s@.subrange(0, n - 1) =~= s@.drop_last());
        }
        r
    } else {
        s.to_owned()
    }
}

/// Compares two string slices character by character.
pub fn str_eq(a: &str, b: &str) -> (r: bool)
    ensures
        r == (a@ == b@),
{
    let na = a.unicode_len();
    let nb = b.unicode_len();
    if na != nb {
        return false;
    }
    let mut i: usize = 0;
    while i < na
        invariant
            na == a@.len(),
            nb == b@.len(),
            na == nb,
            i <= na,
            forall|j: int| 0 <= j < i ==> a@[j] == b@[j],
        decreases na - i,
    {
        if a.get_char(i) != b.get_char(i) {
            return false;
        }
        i += 1;
    }
    proof {
        assert(a@ =~= b@);
    }
    true
}

} // verus!
