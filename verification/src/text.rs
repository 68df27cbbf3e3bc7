//! Small verified helpers on strings, all stated over the characters of a string.

use vstd::prelude::*;
use vstd::string::*;

verus! {

/// The five ASCII whitespace characters: space, tab, line feed, form feed and
/// carriage return.
pub open spec fn is_ascii_space(c: char) -> bool {
    c == ' ' || c == '\t' || c == '\n' || c == '\x0C' || c == '\r'
}

/// Length of the longest prefix of `s` that holds no ASCII whitespace.
pub open spec fn word_len(s: Seq<char>) -> nat
    decreases s.len(),
{
    if s.len() == 0 || is_ascii_space(s[0]) {
        0
    } else {
        1 + word_len(s.drop_first())
    }
}

/// The maximal runs of non-whitespace characters of `s`, in order.
pub open spec fn split_words(s: Seq<char>) -> Seq<Seq<char>>
    decreases s.len(),
{
    if s.len() == 0 {
        Seq::empty()
    } else if is_ascii_space(s[0]) {
        split_words(s.drop_first())
    } else {
        let n = word_len(s) as int;
        if 0 < n <= s.len() {
            seq![s.take(n)] + split_words(s.skip(n))
        } else {
            Seq::empty()
        }
    }
}

pub fn is_space(c: char) -> (r: bool)
    ensures
        r == is_ascii_space(c),
{
    c == ' ' || c == '\t' || c == '\n' || c == '\x0C' || c == '\r'
}

pub fn str_eq(a: &str, b: &str) -> (r: bool)
    ensures
        r == (a@ == b@),
{
    let x = a.as_bytes();
    let y = b.as_bytes();
    proof {
        vstd::utf8::encode_utf8_decode_utf8(a@);
        vstd::utf8::encode_utf8_decode_utf8(b@);
    }
    if x.len() != y.len() {
        return false;
    }
    let n = x.len();
    let mut i: usize = 0;
    while i < n
        invariant
            i <= n,
            n == x@.len(),
            n == y@.len(),
            x@ == a.spec_bytes(),
            y@ == b.spec_bytes(),
            forall|j: int| 0 <= j < i ==> x@[j] == y@[j],
        decreases n - i,
    {
        if x[i] != y[i] {
            return false;
        }
        i += 1;
    }
    assert(x@ =~= y@);
    true
}

/// Whether `s` begins with the characters of `prefix`.
pub fn starts_with(s: &str, prefix: &str) -> (r: bool)
    ensures
        r == prefix@.is_prefix_of(s@),
{
    let n = prefix.unicode_len();
    if s.unicode_len() < n {
        return false;
    }
    let mut i: usize = 0;
    while i < n
        invariant
            i <= n,
            n == prefix@.len(),
            n <= s@.len(),
            forall|j: int| 0 <= j < i ==> s@[j] == prefix@[j],
        decreases n - i,
    {
        if s.get_char(i) != prefix.get_char(i) {
            return false;
        }
        i += 1;
    }
    true
}

/// A run of `k` non-whitespace characters that ends at whitespace or at the
/// end of `s` is the first word of `s`.
pub proof fn lemma_word_len_run(s: Seq<char>, k: int)
    requires
        0 <= k <= s.len(),
        forall|j: int| 0 <= j < k ==> !is_ascii_space(#[trigger] s[j]),
        k == s.len() || is_ascii_space(s[k]),
    ensures
        word_len(s) == k,
    decreases k,
{
    if k > 0 {
        let t = s.drop_first();
        assert forall|j: int| 0 <= j < k - 1 implies !is_ascii_space(#[trigger] t[j]) by {
            assert(t[j] == s[j + 1]);
        }
        lemma_word_len_run(t, k - 1);
    }
}

/// Splits `s` on ASCII whitespace: the words come out in order, and runs of
/// whitespace, leading and trailing ones too, yield no empty word.
pub fn split_ascii_whitespace(s: &str) -> (words: Vec<String>)
    ensures
        words.deep_view() == split_words(s@),
{
    let n = s.unicode_len();
    let mut words: Vec<String> = Vec::new();
    let mut start: Option<usize> = None;
    let mut i: usize = 0;
    assert(s@.skip(0) =~= s@);
    assert(words.deep_view() =~= Seq::<Seq<char>>::empty());
    for c in it: s.chars()
        invariant
            it.seq() == s@,
            i == it.index(),
            n == s@.len(),
            match start {
                Some(b) => b < i && forall|j: int| b <= j < i ==> !is_ascii_space(#[trigger] s@[j]),
                None => true,
            },
            split_words(s@) == words.deep_view() + split_words(
                s@.skip(
                    match start {
                        Some(b) => b as int,
                        None => i as int,
                    },
                ),
            ),
    {
        if is_space(c) {
            if let Some(b) = start {
                let word = s.substring_char(b, i).to_owned();
                proof {
                    lemma_split_first_word(s@, b as int, i as int);
                    lemma_push_deep_view(words, word);
                }
                words.push(word);
                start = None;
            }
            proof {
                let rest = s@.skip(i as int);
                assert(rest.drop_first() =~= s@.skip(i + 1));
            }
        } else if start.is_none() {
            start = Some(i);
        }
        i += 1;
    }
    if let Some(b) = start {
        let word = s.substring_char(b, n).to_owned();
        proof {
            lemma_split_first_word(s@, b as int, n as int);
            lemma_push_deep_view(words, word);
        }
        words.push(word);
    }
    assert(s@.skip(n as int).len() == 0);
    words
}

/// The word that spans `[b, e)` is the first one that splitting finds from `b` on.
proof fn lemma_split_first_word(s: Seq<char>, b: int, e: int)
    requires
        0 <= b < e <= s.len(),
        forall|j: int| b <= j < e ==> !is_ascii_space(#[trigger] s[j]),
        e == s.len() || is_ascii_space(s[e]),
    ensures
        split_words(s.skip(b)) == seq![s.subrange(b, e)] + split_words(s.skip(e)),
{
    let t = s.skip(b);
    assert forall|j: int| 0 <= j < e - b implies !is_ascii_space(#[trigger] t[j]) by {
        assert(t[j] == s[b + j]);
    }
    lemma_word_len_run(t, e - b);
    assert(t.take(e - b) =~= s.subrange(b, e));
    assert(t.skip(e - b) =~= s.skip(e));
    assert(!is_ascii_space(t[0]));
}

/// Index of the first of `wanted` that is none of `pool`.
pub open spec fn first_absent(pool: Seq<Seq<char>>, wanted: Seq<Seq<char>>) -> Option<int>
    decreases wanted.len(),
{
    if wanted.len() == 0 {
        None
    } else {
        match first_absent(pool, wanted.drop_last()) {
            Some(j) => Some(j),
            None => if pool.contains(wanted.last()) {
                None
            } else {
                Some(wanted.len() - 1)
            },
        }
    }
}

/// What is absent in a prefix of `wanted` is the first that is absent at all.
pub proof fn lemma_first_absent_persists(pool: Seq<Seq<char>>, wanted: Seq<Seq<char>>, k: int)
    requires
        0 <= k <= wanted.len(),
        first_absent(pool, wanted.take(k)).is_some(),
    ensures
        first_absent(pool, wanted) == first_absent(pool, wanted.take(k)),
    decreases wanted.len(),
{
    if k == wanted.len() {
        assert(wanted.take(k) =~= wanted);
    } else {
        assert(wanted.drop_last().take(k) =~= wanted.take(k));
        lemma_first_absent_persists(pool, wanted.drop_last(), k);
    }
}

/// Nothing is absent exactly when the pool holds all that is wanted, and
/// what is reported is the first that the pool lacks.
pub proof fn lemma_first_absent(pool: Seq<Seq<char>>, wanted: Seq<Seq<char>>)
    ensures
        first_absent(pool, wanted).is_none() <==> forall|i: int|
            0 <= i < wanted.len() ==> pool.contains(#[trigger] wanted[i]),
        first_absent(pool, wanted) matches Some(j) ==> 0 <= j < wanted.len() && !pool.contains(
            wanted[j],
        ) && forall|i: int| 0 <= i < j ==> pool.contains(#[trigger] wanted[i]),
    decreases wanted.len(),
{
    if wanted.len() > 0 {
        let d = wanted.drop_last();
        lemma_first_absent(pool, d);
        match first_absent(pool, d) {
            Some(j) => {
                assert(d[j] == wanted[j]);
                assert forall|i: int| 0 <= i < j implies pool.contains(#[trigger] wanted[i]) by {
                    assert(d[i] == wanted[i]);
                }
            },
            None => {
                assert forall|i: int| 0 <= i < wanted.len() - 1 implies pool.contains(
                    #[trigger] wanted[i],
                ) by {
                    assert(d[i] == wanted[i]);
                }
            },
        }
    }
}

/// `a` followed by `b`.
pub fn joined(a: &str, b: &str) -> (r: String)
    ensures
        r@ == a@ + b@,
{
    let mut r = a.to_owned();
    r.append(b);
    r
}

/// The decimal digit `d`.
pub open spec fn digit(d: nat) -> Seq<char> {
    if d == 0 {
        "0"@
    } else if d == 1 {
        "1"@
    } else if d == 2 {
        "2"@
    } else if d == 3 {
        "3"@
    } else if d == 4 {
        "4"@
    } else if d == 5 {
        "5"@
    } else if d == 6 {
        "6"@
    } else if d == 7 {
        "7"@
    } else if d == 8 {
        "8"@
    } else {
        "9"@
    }
}

/// `n` in decimal digits, without leading zeros.
pub open spec fn decimal(n: nat) -> Seq<char>
    decreases n,
{
    if n < 10 {
        digit(n)
    } else {
        decimal(n / 10) + digit(n % 10)
    }
}

fn digit_str(d: usize) -> (r: &'static str)
    requires
        d < 10,
    ensures
        r@ == digit(d as nat),
{
    if d == 0 {
        "0"
    } else if d == 1 {
        "1"
    } else if d == 2 {
        "2"
    } else if d == 3 {
        "3"
    } else if d == 4 {
        "4"
    } else if d == 5 {
        "5"
    } else if d == 6 {
        "6"
    } else if d == 7 {
        "7"
    } else if d == 8 {
        "8"
    } else {
        "9"
    }
}

/// `n` written in decimal.
pub fn to_decimal(n: usize) -> (r: String)
    ensures
        r@ == decimal(n as nat),
    decreases n,
{
    if n < 10 {
        digit_str(n).to_owned()
    } else {
        let mut r = to_decimal(n / 10);
        r.append(digit_str(n % 10));
        r
    }
}

/// A copy of `v`.
pub fn clone_strings(v: &Vec<String>) -> (r: Vec<String>)
    ensures
        r.deep_view() == v.deep_view(),
{
    let r = v.clone();
    assert(r@ =~= v@);
    r
}

/// A copy of `v`.
pub fn clone_opt_strings(v: &Option<Vec<String>>) -> (r: Option<Vec<String>>)
    ensures
        r.deep_view() == v.deep_view(),
{
    match v {
        Some(list) => Some(clone_strings(list)),
        None => None,
    }
}

/// Pushing a string extends the deep view by that string's characters.
proof fn lemma_push_deep_view(v: Vec<String>, s: String)
    ensures
        v@.push(s).len() == v@.len() + 1,
        Seq::new(v@.push(s).len(), |i: int| v@.push(s)[i].deep_view()) == v.deep_view().push(s@),
{
    assert(Seq::new(v@.push(s).len(), |i: int| v@.push(s)[i].deep_view()) =~= v.deep_view().push(
        s@,
    ));
}

} // verus!
