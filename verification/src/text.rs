//! Character-sequence utilities shared by the topic matcher, the path value
//! object and the wire codec: splitting on a separator, joining, equality,
//! and lowercasing through the standard library.

use vstd::prelude::*;
use vstd::string::StrSliceExecFns;
use vstd::string::StringExecFns;

verus! {

/// What `str::to_lowercase` returns for a given character sequence.
/// Unicode lowercasing is a function of the characters alone.
pub uninterp spec fn lower_of(s: Seq<char>) -> Seq<char>;

/// Relies on `str::to_lowercase`: the returned string is the Unicode
/// lowercase form of `s`, a function of the characters alone; lowercasing
/// the empty string yields the empty string.
#[verifier::external_body]
pub(crate) fn to_lower(s: &str) -> (r: String)
    ensures
        r@ == lower_of(s@),
        s@.len() == 0 ==> r@.len() == 0,
{
    s.to_lowercase()
}

/// Relies on `Iterator::collect` for `String`: the collected string holds
/// exactly the given characters.
#[verifier::external_body]
pub(crate) fn string_of_chars(v: &Vec<char>) -> (r: String)
    ensures
        r@ == v@,
{
    v.iter().collect()
}

/// Relies on `String::from_utf8`: succeeds exactly on valid UTF-8 input
/// and returns its decoding.
#[verifier::external_body]
pub(crate) fn string_from_utf8(v: Vec<u8>) -> (r: Option<String>)
    ensures
        r is Some <==> vstd::utf8::valid_utf8(v@),
        r matches Some(s) ==> s@ == vstd::utf8::decode_utf8(v@),
{
    String::from_utf8(v).ok()
}

/// The Unicode lowercase form of a character vector.
pub fn lower_chars(v: &Vec<char>) -> (r: Vec<char>)
    ensures
        r@ == lower_of(v@),
{
    let s = string_of_chars(v);
    let l = to_lower(s.as_str());
    chars_of(l.as_str())
}

/// The characters of `s`, as a vector.
pub fn chars_of(s: &str) -> (r: Vec<char>)
    ensures
        r@ == s@,
{
    let n: usize = s.unicode_len();
    let mut v: Vec<char> = Vec::new();
    let mut i: usize = 0;
    while i < n
        invariant
            i <= n,
            n == s@.len(),
            v@ == s@.take(i as int),
        decreases n - i,
    {
        let c = s.get_char(i);
        v.push(c);
        i = i + 1;
        proof {
            assert(v@ =~= s@.take(i as int));
        }
    }
    proof {
        assert(s@.take(n as int) =~= s@);
    }
    v
}

/// Whether two character vectors hold the same characters.
pub fn chars_eq(a: &Vec<char>, b: &Vec<char>) -> (r: bool)
    ensures
        r == (a@ == b@),
{
    if a.len() != b.len() {
        return false;
    }
    let mut i: usize = 0;
    while i < a.len()
        invariant
            i <= a@.len(),
            a@.len() == b@.len(),
            forall|j: int| 0 <= j < i ==> a@[j] == b@[j],
        decreases a@.len() - i,
    {
        if a[i] != b[i] {
            return false;
        }
        i = i + 1;
    }
    proof {
        assert(a@ =~= b@);
    }
    true
}

/// The parts of `s` split on the (possibly multi-character) separator
/// `sep`, leftmost match first, as `str::split` produces them: an empty
/// separator splits between every character and adds an empty leading and
/// trailing part; otherwise each occurrence of `sep` ends a part.
pub open spec fn split_on(s: Seq<char>, sep: Seq<char>) -> Seq<Seq<char>>
    decreases s.len(),
{
    if sep.len() == 0 {
        seq![Seq::<char>::empty()] + Seq::new(s.len(), |i: int| seq![s[i]]) + seq![
            Seq::<char>::empty(),
        ]
    } else if s.len() < sep.len() {
        seq![s]
    } else if s.subrange(0, sep.len() as int) == sep {
        seq![Seq::<char>::empty()] + split_on(s.skip(sep.len() as int), sep)
    } else {
        let rest = split_on(s.skip(1), sep);
        seq![seq![s[0]] + rest[0]] + rest.skip(1)
    }
}

/// A split always yields at least one part.
pub proof fn lemma_split_on_len(s: Seq<char>, sep: Seq<char>)
    ensures
        split_on(s, sep).len() >= 1,
    decreases s.len(),
{
    if sep.len() == 0 {
    } else if s.len() < sep.len() {
    } else if s.subrange(0, sep.len() as int) == sep {
        lemma_split_on_len(s.skip(sep.len() as int), sep);
    } else {
        lemma_split_on_len(s.skip(1), sep);
    }
}

/// The state of a left-to-right scan: the finished parts, the part being
/// built, and the split of the remaining input, reassembled into the split
/// of the whole input.
pub open spec fn split_scan(done: Seq<Seq<char>>, cur: Seq<char>, rest: Seq<Seq<char>>) -> Seq<
    Seq<char>,
> {
    done + seq![cur + rest[0]] + rest.skip(1)
}

/// Whether `sep` occurs in `s` at position `i`.
fn window_matches(s: &Vec<char>, i: usize, sep: &Vec<char>) -> (r: bool)
    requires
        i + sep@.len() <= s@.len(),
    ensures
        r == (s@.subrange(i as int, i as int + sep@.len() as int) == sep@),
{
    let n: usize = s.len();
    let mut j: usize = 0;
    while j < sep.len()
        invariant
            j <= sep@.len(),
            i + sep@.len() <= s@.len(),
            n == s@.len(),
            forall|k: int| 0 <= k < j ==> s@[i + k] == sep@[k],
        decreases sep@.len() - j,
    {
        if s[i + j] != sep[j] {
            proof {
                let w = s@.subrange(i as int, i as int + sep@.len() as int);
                assert(w[j as int] != sep@[j as int]);
            }
            return false;
        }
        j = j + 1;
    }
    proof {
        assert(s@.subrange(i as int, i as int + sep@.len() as int) =~= sep@);
    }
    true
}

/// Splits `s` on `sep`, exactly as `split_on` describes.
pub fn split_chars(s: &Vec<char>, sep: &Vec<char>) -> (r: Vec<Vec<char>>)
    ensures
        r@.len() == split_on(s@, sep@).len(),
        forall|k: int| 0 <= k < r@.len() ==> #[trigger] r@[k]@ == split_on(s@, sep@)[k],
{
    let mut parts: Vec<Vec<char>> = Vec::new();
    let ghost mut done: Seq<Seq<char>> = Seq::empty();
    if sep.len() == 0 {
        parts.push(Vec::new());
        proof {
            done = done.push(Seq::empty());
        }
        let mut i: usize = 0;
        while i < s.len()
            invariant
                i <= s@.len(),
                done.len() == parts@.len(),
                forall|k: int| 0 <= k < done.len() ==> #[trigger] parts@[k]@ == done[k],
                done == seq![Seq::<char>::empty()] + Seq::new(i as nat, |k: int| seq![s@[k]]),
            decreases s@.len() - i,
        {
            let mut one: Vec<char> = Vec::new();
            one.push(s[i]);
            parts.push(one);
            proof {
                done = done.push(seq![s@[i as int]]);
                assert(done =~= seq![Seq::<char>::empty()] + Seq::new(
                    (i + 1) as nat,
                    |k: int| seq![s@[k]],
                ));
            }
            i = i + 1;
        }
        parts.push(Vec::new());
        proof {
            done = done.push(Seq::empty());
            assert(done =~= split_on(s@, sep@));
        }
        return parts;
    }
    let mut cur: Vec<char> = Vec::new();
    let mut i: usize = 0;
    proof {
        lemma_split_on_len(s@, sep@);
        assert(s@.skip(0) =~= s@);
        assert(split_scan(done, cur@, split_on(s@, sep@)) =~= split_on(s@, sep@));
    }
    while i < s.len()
        invariant
            i <= s@.len(),
            sep@.len() >= 1,
            done.len() == parts@.len(),
            forall|k: int| 0 <= k < done.len() ==> #[trigger] parts@[k]@ == done[k],
            split_on(s@.skip(i as int), sep@).len() >= 1,
            split_on(s@, sep@) == split_scan(done, cur@, split_on(s@.skip(i as int), sep@)),
        decreases s@.len() - i,
    {
        let ghost rem = s@.skip(i as int);
        if sep.len() <= s.len() - i && window_matches(s, i, sep) {
            proof {
                assert(rem.subrange(0, sep@.len() as int) =~= s@.subrange(
                    i as int,
                    i as int + sep@.len() as int,
                ));
                assert(rem.skip(sep@.len() as int) =~= s@.skip(i as int + sep@.len() as int));
                lemma_split_on_len(rem.skip(sep@.len() as int), sep@);
            }
            let ghost nxt = split_on(s@.skip(i as int + sep@.len() as int), sep@);
            proof {
                assert(split_on(rem, sep@) == seq![Seq::<char>::empty()] + nxt);
                assert(split_scan(done, cur@, seq![Seq::<char>::empty()] + nxt) =~= split_scan(
                    done.push(cur@),
                    Seq::<char>::empty(),
                    nxt,
                ));
                done = done.push(cur@);
            }
            parts.push(cur);
            cur = Vec::new();
            i = i + sep.len();
        } else {
            proof {
                if rem.len() >= sep@.len() && rem.subrange(0, sep@.len() as int) == sep@ {
                    assert(rem.subrange(0, sep@.len() as int) =~= s@.subrange(
                        i as int,
                        i as int + sep@.len() as int,
                    ));
                    assert(false);
                }
                assert(rem.skip(1) =~= s@.skip(i as int + 1));
                lemma_split_on_len(rem.skip(1), sep@);
            }
            let ghost nxt = split_on(s@.skip(i as int + 1), sep@);
            proof {
                if rem.len() < sep@.len() {
                    assert(split_on(rem, sep@) == seq![rem]);
                    assert(nxt == seq![rem.skip(1)]);
                    assert(seq![seq![rem[0]] + nxt[0]] + nxt.skip(1) =~~= seq![rem]);
                } else {
                    assert(split_on(rem, sep@) == seq![seq![rem[0]] + nxt[0]] + nxt.skip(1));
                }
                assert(split_scan(done, cur@, seq![seq![rem[0]] + nxt[0]] + nxt.skip(1))
                    =~~= split_scan(done, cur@.push(rem[0]), nxt));
                assert(rem[0] == s@[i as int]);
            }
            cur.push(s[i]);
            i = i + 1;
        }
    }
    proof {
        assert(s@.skip(i as int) =~= Seq::<char>::empty());
        assert(split_on(Seq::<char>::empty(), sep@) == seq![Seq::<char>::empty()]);
        assert(split_scan(done, cur@, seq![Seq::<char>::empty()]) =~= done.push(cur@));
        done = done.push(cur@);
    }
    parts.push(cur);
    parts
}

/// The parts joined with `sep` between consecutive parts.
pub open spec fn join_with(parts: Seq<Seq<char>>, sep: Seq<char>) -> Seq<char>
    decreases parts.len(),
{
    if parts.len() == 0 {
        Seq::<char>::empty()
    } else if parts.len() == 1 {
        parts[0]
    } else {
        parts[0] + sep + join_with(parts.skip(1), sep)
    }
}

/// Joining one more part appends a separator and that part.
pub proof fn lemma_join_with_push(parts: Seq<Seq<char>>, sep: Seq<char>, last: Seq<char>)
    requires
        parts.len() >= 1,
    ensures
        join_with(parts.push(last), sep) == join_with(parts, sep) + sep + last,
    decreases parts.len(),
{
    if parts.len() == 1 {
        reveal_with_fuel(join_with, 3);
        assert(parts.push(last).skip(1) =~= seq![last]);
        assert(join_with(parts.push(last), sep) == parts[0] + sep + last);
        assert(join_with(parts, sep) == parts[0]);
    } else {
        lemma_join_with_push(parts.skip(1), sep, last);
        assert(parts.push(last).skip(1) =~= parts.skip(1).push(last));
        assert(join_with(parts, sep) + sep + last =~= parts[0] + sep + (join_with(
            parts.skip(1),
            sep,
        ) + sep + last));
    }
}

/// Joins string parts with a separator, exactly as `join_with` describes.
pub fn join_strings(parts: &Vec<String>, sep: &str) -> (r: String)
    ensures
        r@ == join_with(parts.deep_view(), sep@),
{
    let mut out = String::new();
    let mut i: usize = 0;
    while i < parts.len()
        invariant
            i <= parts@.len(),
            out@ == join_with(parts.deep_view().take(i as int), sep@),
        decreases parts@.len() - i,
    {
        if i > 0 {
            out.append(sep);
        }
        out.append(parts[i].as_str());
        proof {
            let pv = parts.deep_view();
            assert(pv.take(i as int + 1) =~= pv.take(i as int).push(pv[i as int]));
            if i == 0 {
                assert(join_with(pv.take(1), sep@) == pv.take(1)[0]);
            } else {
                lemma_join_with_push(pv.take(i as int), sep@, pv[i as int]);
            }
        }
        i = i + 1;
    }
    proof {
        assert(parts.deep_view().take(parts@.len() as int) =~= parts.deep_view());
    }
    out
}

} // verus!
