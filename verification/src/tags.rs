//! Tag syntax: validation, splitting on `:`, and hierarchical prefixes.
//!
//! A tag is a non-empty string of at most 256 characters drawn from
//! alphanumerics, `_`, `.` and `:`, that neither starts nor ends with `:` or
//! `.`, and whose hierarchical depth (number of `:`) is at most 16.

use vstd::prelude::*;
use vstd::string::StrSliceExecFns;
use vstd::string::StringExecFns;

use crate::errors::CacheError;

verus! {

/// Names the result of `char::is_alphanumeric`: a pure classification by
/// Unicode character classes, a function of the character alone.
pub uninterp spec fn is_alnum_char(c: char) -> bool;

/// Relies on char::is_alphanumeric for the Unicode letter/number classes.
#[verifier::external_body]
fn char_is_alphanumeric(c: char) -> (r: bool)
    ensures
        r == is_alnum_char(c),
{
    c.is_alphanumeric()
}

/// Characters a tag may contain.
pub open spec fn tag_char_ok(c: char) -> bool {
    c == ':' || c == '.' || c == '_' || is_alnum_char(c)
}

/// Number of `:` characters in a string; the tag's depth.
pub open spec fn colon_count(s: Seq<char>) -> nat
    decreases s.len(),
{
    if s.len() == 0 {
        0
    } else {
        colon_count(s.drop_last()) + (if s.last() == ':' {
            1nat
        } else {
            0nat
        })
    }
}

/// The tag syntax rule: what `validate_tag` accepts.
pub open spec fn valid_tag(s: Seq<char>) -> bool {
    &&& s.len() > 0
    &&& s.len() <= 256
    &&& s[0] != ':'
    &&& s[0] != '.'
    &&& s[s.len() - 1] != ':'
    &&& s[s.len() - 1] != '.'
    &&& (forall|i: int| 0 <= i < s.len() ==> tag_char_ok(#[trigger] s[i]))
    &&& colon_count(s) <= 16
}

proof fn lemma_colon_count_le_len(s: Seq<char>)
    ensures
        colon_count(s) <= s.len(),
    decreases s.len(),
{
    if s.len() > 0 {
        lemma_colon_count_le_len(s.drop_last());
    }
}

/// Checks a tag against the syntax rule, rejecting with `InvalidTag`.
pub fn validate_tag(tag: &str) -> (r: Result<(), CacheError>)
    ensures
        r is Ok <==> valid_tag(tag@),
        r is Err ==> r == Err::<(), CacheError>(CacheError::InvalidTag),
{
    let n = tag.unicode_len();
    if n == 0 || n > 256 {
        return Err(CacheError::InvalidTag);
    }
    let first = tag.get_char(0);
    let last = tag.get_char(n - 1);
    if first == ':' || first == '.' || last == ':' || last == '.' {
        return Err(CacheError::InvalidTag);
    }
    let mut depth: usize = 0;
    let mut i: usize = 0;
    while i < n
        invariant
            i <= n,
            n == tag@.len(),
            depth == colon_count(tag@.take(i as int)),
            forall|j: int| 0 <= j < i ==> tag_char_ok(#[trigger] tag@[j]),
        decreases n - i,
    {
        let c = tag.get_char(i);
        proof {
            lemma_colon_count_le_len(tag@.take(i as int));
            assert(tag@.take(i + 1).drop_last() =~= tag@.take(i as int));
            assert(tag@.take(i + 1).last() == tag@[i as int]);
        }
        if c == ':' {
            depth = depth + 1;
        } else if c != '.' && c != '_' && !char_is_alphanumeric(c) {
            assert(!tag_char_ok(tag@[i as int]));
            return Err(CacheError::InvalidTag);
        }
        i = i + 1;
    }
    proof {
        assert(tag@.take(n as int) =~= tag@);
    }
    if depth > 16 {
        return Err(CacheError::InvalidTag);
    }
    Ok(())
}

/// Index of the first `:` in `s`, or `s.len()` if there is none.
pub open spec fn first_colon(s: Seq<char>) -> int
    decreases s.len(),
{
    if s.len() == 0 {
        0
    } else if s[0] == ':' {
        0
    } else {
        1 + first_colon(s.skip(1))
    }
}

pub proof fn lemma_first_colon_bounds(s: Seq<char>)
    ensures
        0 <= first_colon(s) <= s.len(),
        forall|j: int| 0 <= j < first_colon(s) ==> s[j] != ':',
        first_colon(s) < s.len() ==> s[first_colon(s)] == ':',
    decreases s.len(),
{
    if s.len() > 0 && s[0] != ':' {
        lemma_first_colon_bounds(s.skip(1));
        assert forall|j: int| 0 <= j < first_colon(s) implies s[j] != ':' by {
            if j > 0 {
                assert(s.skip(1)[j - 1] == s[j]);
            }
        }
    }
}

/// The first colon is exactly the first position holding `:`.
pub proof fn lemma_first_colon_at(s: Seq<char>, k: int)
    requires
        0 <= k <= s.len(),
        forall|j: int| 0 <= j < k ==> s[j] != ':',
        k == s.len() || s[k] == ':',
    ensures
        first_colon(s) == k,
    decreases s.len(),
{
    if s.len() > 0 && s[0] != ':' {
        assert(k >= 1);
        lemma_first_colon_at(s.skip(1), k - 1);
    }
}

/// Splitting a string on `:`; the empty string splits into one empty part.
pub open spec fn split_colon(s: Seq<char>) -> Seq<Seq<char>>
    decreases s.len(),
{
    let fc = first_colon(s);
    if fc == s.len() {
        seq![s]
    } else if 0 <= fc < s.len() {
        seq![s.take(fc)] + split_colon(s.skip(fc + 1))
    } else {
        // unreachable: first_colon stays within bounds
        seq![s]
    }
}

/// Joining parts with `:` between them.
pub open spec fn join_colon(ps: Seq<Seq<char>>) -> Seq<char>
    decreases ps.len(),
{
    if ps.len() == 0 {
        Seq::empty()
    } else if ps.len() == 1 {
        ps[0]
    } else {
        ps[0] + seq![':'] + join_colon(ps.skip(1))
    }
}

/// Joining the split of a string yields the string back.
pub proof fn lemma_join_split(s: Seq<char>)
    ensures
        join_colon(split_colon(s)) =~= s,
    decreases s.len(),
{
    lemma_first_colon_bounds(s);
    let fc = first_colon(s);
    if fc == s.len() {
    } else {
        lemma_join_split(s.skip(fc + 1));
        let ps = split_colon(s);
        lemma_split_nonempty(s.skip(fc + 1));
        assert(ps.skip(1) =~= split_colon(s.skip(fc + 1)));
        assert(s.take(fc) + seq![':'] + s.skip(fc + 1) =~= s);
    }
}

pub proof fn lemma_split_nonempty(s: Seq<char>)
    ensures
        split_colon(s).len() >= 1,
{
    lemma_first_colon_bounds(s);
}

/// Splits `tag` on `:` into its parts.
pub fn split_tag(tag: &str) -> (parts: Vec<String>)
    ensures
        parts.deep_view() == split_colon(tag@),
{
    let n = tag.unicode_len();
    let mut parts: Vec<String> = Vec::new();
    proof {
        assert(tag@.skip(0) =~= tag@);
        assert(parts.deep_view() + split_colon(tag@) =~= split_colon(tag@));
    }
    let mut start: usize = 0;
    let mut i: usize = 0;
    while i < n
        invariant
            start <= i <= n,
            n == tag@.len(),
            forall|j: int| start <= j < i ==> tag@[j] != ':',
            parts.deep_view() + split_colon(tag@.skip(start as int)) =~= split_colon(tag@),
        decreases n - i,
    {
        let c = tag.get_char(i);
        if c == ':' {
            let piece = tag.substring_char(start, i).to_owned();
            proof {
                let t = tag@.skip(start as int);
                assert forall|j: int| 0 <= j < i - start implies t[j] != ':' by {
                    assert(t[j] == tag@[j + start]);
                }
                assert(t[i - start] == tag@[i as int]);
                lemma_first_colon_at(t, i - start);
                assert(t.take(i - start) =~= tag@.subrange(start as int, i as int));
                assert(t.skip(i - start + 1) =~= tag@.skip(i + 1));
                assert(split_colon(t) == seq![tag@.subrange(start as int, i as int)]
                    + split_colon(tag@.skip(i + 1)));
            }
            let ghost old_parts = parts.deep_view();
            parts.push(piece);
            proof {
                assert(parts.deep_view() =~= old_parts.push(piece@));
                assert(parts.deep_view() + split_colon(tag@.skip(i + 1)) =~= split_colon(tag@));
            }
            start = i + 1;
        }
        i = i + 1;
    }
    let piece = tag.substring_char(start, n).to_owned();
    proof {
        let t = tag@.skip(start as int);
        assert forall|j: int| 0 <= j < t.len() implies t[j] != ':' by {
            assert(t[j] == tag@[j + start]);
        }
        lemma_first_colon_at(t, t.len() as int);
        assert(t =~= tag@.subrange(start as int, n as int));
        assert(split_colon(t) == seq![t]);
    }
    let ghost old_parts = parts.deep_view();
    parts.push(piece);
    proof {
        assert(parts.deep_view() =~= old_parts.push(piece@));
        assert(parts.deep_view() =~= split_colon(tag@));
    }
    parts
}


/// The tag list with later repetitions removed: first occurrences, in order.
pub open spec fn dedup_first(s: Seq<String>) -> Seq<String>
    decreases s.len(),
{
    if s.len() == 0 {
        s
    } else {
        let front = dedup_first(s.drop_last());
        if exists|i: int| 0 <= i < s.len() - 1 && (#[trigger] s[i])@ == s.last()@ {
            front
        } else {
            front.push(s.last())
        }
    }
}

/// Every deduplicated element is one of the originals.
pub proof fn lemma_dedup_elements(s: Seq<String>)
    ensures
        forall|k: int|
            0 <= k < dedup_first(s).len() ==> exists|m: int|
                0 <= m < s.len() && (#[trigger] dedup_first(s)[k]) == s[m],
    decreases s.len(),
{
    if s.len() > 0 {
        lemma_dedup_elements(s.drop_last());
        assert forall|k: int| 0 <= k < dedup_first(s).len() implies exists|m: int|
            0 <= m < s.len() && (#[trigger] dedup_first(s)[k]) == s[m] by {
            let front = dedup_first(s.drop_last());
            if k < front.len() {
                let m = choose|m: int|
                    0 <= m < s.drop_last().len() && (#[trigger] front[k]) == s.drop_last()[m];
                assert(s.drop_last()[m] == s[m]);
            } else {
                assert(dedup_first(s)[k] == s[s.len() - 1]);
            }
        }
    }
}

/// The deduplicated tags are pairwise distinct.
pub proof fn lemma_dedup_distinct(s: Seq<String>)
    ensures
        forall|j: int, k: int|
            0 <= j < k < dedup_first(s).len() ==> (#[trigger] dedup_first(s)[j])@ != (
            #[trigger] dedup_first(s)[k])@,
        forall|k: int|
            0 <= k < dedup_first(s).len() ==> exists|m: int|
                0 <= m < s.len() && ((#[trigger] dedup_first(s)[k]))@ == s[m]@,
    decreases s.len(),
{
    lemma_dedup_elements(s);
    assert forall|k: int| 0 <= k < dedup_first(s).len() implies exists|m: int|
        0 <= m < s.len() && ((#[trigger] dedup_first(s)[k]))@ == s[m]@ by {
        let m = choose|m: int| 0 <= m < s.len() && dedup_first(s)[k] == (#[trigger] s[m]);
        assert(dedup_first(s)[k]@ == s[m]@);
    }
    if s.len() > 0 {
        lemma_dedup_distinct(s.drop_last());
        let front = dedup_first(s.drop_last());
        assert forall|j: int, k: int|
            0 <= j < k < dedup_first(s).len() implies (#[trigger] dedup_first(s)[j])@ != (
        #[trigger] dedup_first(s)[k])@ by {
            if k == front.len() && dedup_first(s).len() > front.len() {
                // the pushed last tag saw no earlier occurrence
                let m = choose|m: int|
                    0 <= m < s.drop_last().len() && front[j]@ == (#[trigger] s.drop_last()[m])@;
                assert(s[m]@ == front[j]@);
                if front[j]@ == s.last()@ {
                    assert(s[m]@ == s.last()@);
                    assert(false);
                }
            } else {
                assert(dedup_first(s)[j] == front[j]);
                assert(dedup_first(s)[k] == front[k]);
            }
        }
    }
}

/// Drops later repetitions of a tag, keeping first occurrences in order.
pub fn dedup_tags(tags: &Vec<String>) -> (r: Vec<String>)
    ensures
        r@ == dedup_first(tags@),
{
    let mut r: Vec<String> = Vec::new();
    proof {
        assert(tags@.take(0) =~= Seq::<String>::empty());
    }
    let mut i: usize = 0;
    while i < tags.len()
        invariant
            i <= tags.len(),
            r@ == dedup_first(tags@.take(i as int)),
        decreases tags.len() - i,
    {
        let mut seen = false;
        let mut j: usize = 0;
        while j < i
            invariant
                j <= i < tags.len(),
                seen ==> exists|m: int| 0 <= m < i && (#[trigger] tags@[m])@ == tags@[i as int]@,
                !seen ==> forall|m: int| 0 <= m < j ==> (#[trigger] tags@[m])@ != tags@[i as int]@,
            decreases i - j,
        {
            if crate::strmap::str_eq(tags[j].as_str(), tags[i].as_str()) {
                seen = true;
            }
            j = j + 1;
        }
        proof {
            let t = tags@.take(i + 1);
            assert(t.drop_last() =~= tags@.take(i as int));
            assert(t.last() == tags@[i as int]);
            assert(seen == exists|m: int|
                0 <= m < t.len() - 1 && (#[trigger] t[m])@ == t.last()@) by {
                if seen {
                    let m = choose|m: int|
                        0 <= m < i && (#[trigger] tags@[m])@ == tags@[i as int]@;
                    assert(t[m]@ == t.last()@);
                }
                if exists|m: int| 0 <= m < t.len() - 1 && (#[trigger] t[m])@ == t.last()@ {
                    let m = choose|m: int| 0 <= m < t.len() - 1 && (#[trigger] t[m])@ == t.last()@;
                    assert(tags@[m]@ == tags@[i as int]@);
                }
            }
        }
        if !seen {
            r.push(tags[i].clone());
        }
        i = i + 1;
    }
    proof {
        assert(tags@.take(tags@.len() as int) =~= tags@);
    }
    r
}

/// The joined prefixes of a part list: element `k` is the join of the first
/// `k + 1` parts.
pub open spec fn joined_prefixes(ps: Seq<Seq<char>>) -> Seq<Seq<char>> {
    Seq::new(ps.len(), |k: int| join_colon(ps.take(k + 1)))
}

/// Appending one part extends the join with `:` and the part.
pub proof fn lemma_join_push(ps: Seq<Seq<char>>, x: Seq<char>)
    ensures
        ps.len() == 0 ==> join_colon(ps.push(x)) =~= x,
        ps.len() > 0 ==> join_colon(ps.push(x)) =~= join_colon(ps) + seq![':'] + x,
    decreases ps.len(),
{
    if ps.len() > 0 {
        lemma_join_push(ps.skip(1), x);
        assert(ps.push(x).skip(1) =~= ps.skip(1).push(x));
        if ps.len() == 1 {
            assert(join_colon(ps.push(x)) == ps[0] + seq![':'] + join_colon(seq![x]));
        }
    }
}

/// Builds the joined prefixes of `parts`: `["a", "b", "c"]` yields
/// `["a", "a:b", "a:b:c"]`.
pub fn part_prefixes(parts: &Vec<String>) -> (out: Vec<String>)
    ensures
        out.deep_view() == joined_prefixes(parts.deep_view()),
{
    let mut out: Vec<String> = Vec::new();
    let mut acc = String::new();
    let mut k: usize = 0;
    while k < parts.len()
        invariant
            k <= parts.len(),
            out.deep_view().len() == k as int,
            forall|m: int| 0 <= m < k
                ==> out.deep_view()[m] == join_colon(#[trigger] parts.deep_view().take(m + 1)),
            k > 0 ==> acc@ == join_colon(parts.deep_view().take(k as int)),
            k == 0 ==> acc@ == Seq::<char>::empty(),
        decreases parts.len() - k,
    {
        proof {
            let ps = parts.deep_view();
            lemma_join_push(ps.take(k as int), ps[k as int]);
            assert(ps.take(k as int).push(ps[k as int]) =~= ps.take(k + 1));
        }
        if k > 0 {
            acc.append(":");
            proof {
                reveal_strlit(":");
            }
        }
        acc.append(parts[k].as_str());
        out.push(acc.clone());
        k = k + 1;
    }
    proof {
        assert(out.deep_view() =~= joined_prefixes(parts.deep_view()));
    }
    out
}

} // verus!
