//! Texts: their characters, their length in bytes, and lists of them.
use vstd::prelude::*;

verus! {

/// The number of bytes of the UTF-8 encoding of a text, as `str::len`
/// reports it.
pub open spec fn byte_len(s: Seq<char>) -> usize {
    vstd::utf8::encode_utf8(s).len() as usize
}

/// The characters of a string, one by one.
pub fn chars_of(s: &str) -> (r: Vec<char>)
    ensures
        r@ == s@,
{
    broadcast use vstd::string::group_string_axioms;

    let mut out: Vec<char> = Vec::new();
    for ch in it: s.chars()
        invariant
            out@ == s@.take(it.index()),
            it.seq() == s@,
    {
        out.push(ch);
        assert(s@.take(it.index() + 1) == s@.take(it.index()).push(ch));
    }
    assert(out@ =~= s@);
    out
}

/// Collects the characters into a `String`, through std's `Iterator::collect`
/// (`String: FromIterator<&char>`). Claimed: the string holds exactly these
/// characters, in order.
#[verifier::external_body]
pub(crate) fn string_from_chars(chars: &Vec<char>) -> (r: String)
    ensures
        r@ == chars@,
{
    chars.iter().collect()
}

/// `v` holds a string with the text `w`.
pub open spec fn has_text(v: Seq<String>, w: Seq<char>) -> bool {
    exists|i: int| 0 <= i < v.len() && #[trigger] v[i]@ == w
}

/// No text occurs twice in `v`.
pub open spec fn distinct_texts(v: Seq<String>) -> bool {
    forall|i: int, j: int| 0 <= i < j < v.len() ==> #[trigger] v[i]@ != #[trigger] v[j]@
}

pub proof fn lemma_has_text_push(v: Seq<String>, s: String)
    ensures
        forall|w: Seq<char>| #[trigger]
            has_text(v.push(s), w) <==> (has_text(v, w) || w == s@),
{
    assert forall|w: Seq<char>| #[trigger] has_text(v.push(s), w) <==> (has_text(v, w) || w == s@) by {
        let q = v.push(s);
        if has_text(q, w) {
            let i = choose|i: int| 0 <= i < q.len() && #[trigger] q[i]@ == w;
            if i < v.len() {
                assert(v[i]@ == w);
            }
        }
        if has_text(v, w) {
            let i = choose|i: int| 0 <= i < v.len() && #[trigger] v[i]@ == w;
            assert(q[i]@ == w);
        }
        if w == s@ {
            assert(q[v.len() as int]@ == w);
        }
    }
}

/// `v` holds a string equal to `s`.
pub fn contains_text(v: &Vec<String>, s: &String) -> (r: bool)
    ensures
        r == has_text(v@, s@),
{
    let mut i: usize = 0;
    while i < v.len()
        invariant
            i <= v@.len(),
            forall|j: int| 0 <= j < i ==> v@[j]@ != s@,
        decreases v@.len() - i,
    {
        if v[i] == *s {
            return true;
        }
        i += 1;
    }
    false
}

/// The texts of `words`, each once, in the order of their first occurrence.
pub fn distinct_words(words: &Vec<String>) -> (r: Vec<String>)
    ensures
        forall|w: Seq<char>| #[trigger] has_text(r@, w) <==> has_text(words@, w),
        distinct_texts(r@),
{
    let mut out: Vec<String> = Vec::new();
    let mut i: usize = 0;
    while i < words.len()
        invariant
            i <= words@.len(),
            distinct_texts(out@),
            forall|w: Seq<char>| #[trigger] has_text(out@, w) <==> has_text(words@.take(i as int), w),
        decreases words@.len() - i,
    {
        let w = &words[i];
        let ghost prev = out@;
        proof {
            lemma_has_text_take(words@, i as int);
        }
        if !contains_text(&out, w) {
            proof {
                lemma_has_text_push(out@, *w);
            }
            out.push(w.clone());
            proof {
                assert forall|a: int, b: int| 0 <= a < b < out@.len() implies #[trigger] out@[a]@
                    != #[trigger] out@[b]@ by {
                    if b == out@.len() - 1 {
                        assert(prev[a]@ == out@[a]@);
                        if out@[a]@ == out@[b]@ {
                            assert(has_text(prev, w@));
                        }
                    } else {
                        assert(prev[a] == out@[a] && prev[b] == out@[b]);
                    }
                }
            }
        }
        i += 1;
    }
    proof {
        assert(words@.take(words@.len() as int) =~= words@);
    }
    out
}

pub proof fn lemma_has_text_take(v: Seq<String>, i: int)
    requires
        0 <= i < v.len(),
    ensures
        forall|w: Seq<char>| #[trigger]
            has_text(v.take(i + 1), w) <==> (has_text(v.take(i), w) || w == v[i]@),
{
    assert(v.take(i + 1) =~= v.take(i).push(v[i]));
    lemma_has_text_push(v.take(i), v[i]);
}

} // verus!
