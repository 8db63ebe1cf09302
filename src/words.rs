//! Splitting comment text into words: a maximal run of ASCII letters and
//! digits, a single newline, or any other single character.
use vstd::prelude::*;

verus! {

/// Characters that make up multi-character words.
pub open spec fn is_word_char(c: char) -> bool {
    ('a' <= c && c <= 'z') || ('A' <= c && c <= 'Z') || ('0' <= c && c <= '9')
}

/// Length of the run of word characters at the start of `s`.
pub open spec fn word_run_len(s: Seq<char>) -> nat
    decreases s.len(),
{
    if s.len() > 0 && is_word_char(s[0]) {
        1 + word_run_len(s.drop_first())
    } else {
        0
    }
}

/// Length of the first word of a non-empty `s`.
pub open spec fn first_word_len(s: Seq<char>) -> nat {
    if is_word_char(s[0]) {
        word_run_len(s)
    } else {
        1
    }
}

/// The words of `s`, in order.
pub open spec fn words_of(s: Seq<char>) -> Seq<Seq<char>>
    decreases s.len(),
{
    if s.len() == 0 {
        seq![]
    } else {
        let n = first_word_len(s);
        if 0 < n <= s.len() {
            seq![s.take(n as int)] + words_of(s.skip(n as int))
        } else {
            seq![]
        }
    }
}

/// The concatenation of a sequence of words.
pub open spec fn concat_words(ws: Seq<Seq<char>>) -> Seq<char>
    decreases ws.len(),
{
    if ws.len() == 0 {
        seq![]
    } else {
        ws[0] + concat_words(ws.drop_first())
    }
}

pub proof fn lemma_word_run_len(s: Seq<char>, m: int)
    requires
        0 <= m <= s.len(),
        forall|k: int| 0 <= k < m ==> is_word_char(#[trigger] s[k]),
        m == s.len() || !is_word_char(s[m]),
    ensures
        word_run_len(s) == m,
    decreases m,
{
    if m > 0 {
        let t = s.drop_first();
        assert forall|k: int| 0 <= k < m - 1 implies is_word_char(#[trigger] t[k]) by {
            assert(t[k] == s[k + 1]);
        }
        if m - 1 < t.len() {
            assert(t[m - 1] == s[m]);
        }
        lemma_word_run_len(t, m - 1);
    }
}

pub proof fn lemma_word_run_bound(s: Seq<char>)
    ensures
        word_run_len(s) <= s.len(),
    decreases s.len(),
{
    if s.len() > 0 && is_word_char(s[0]) {
        lemma_word_run_bound(s.drop_first());
    }
}

/// The words of a text make up the text again.
pub proof fn lemma_words_concat(s: Seq<char>)
    ensures
        concat_words(words_of(s)) == s,
    decreases s.len(),
{
    if s.len() > 0 {
        lemma_word_run_bound(s);
        let n = first_word_len(s);
        if is_word_char(s[0]) {
            assert(word_run_len(s) >= 1);
        }
        lemma_words_concat(s.skip(n as int));
        let ws = words_of(s);
        assert(ws.drop_first() == words_of(s.skip(n as int)));
        assert(s.take(n as int) + s.skip(n as int) =~= s);
    }
}

pub proof fn lemma_concat_push(ws: Seq<Seq<char>>, w: Seq<char>)
    ensures
        concat_words(ws.push(w)) == concat_words(ws) + w,
    decreases ws.len(),
{
    if ws.len() == 0 {
        let s = ws.push(w);
        assert(s[0] == w);
        assert(s.drop_first() =~= Seq::<Seq<char>>::empty());
        assert(concat_words(s.drop_first()) =~= Seq::<char>::empty());
        assert(concat_words(s) =~= w);
        assert(concat_words(ws) =~= Seq::<char>::empty());
    } else {
        lemma_concat_push(ws.drop_first(), w);
        assert(ws.push(w).drop_first() =~= ws.drop_first().push(w));
        assert(concat_words(ws.push(w)) =~= concat_words(ws) + w);
    }
}

fn is_word_char_exec(c: char) -> (r: bool)
    ensures
        r == is_word_char(c),
{
    ('a' <= c && c <= 'z') || ('A' <= c && c <= 'Z') || ('0' <= c && c <= '9')
}

/// Split `s` into words: "foo bar" gives "foo", " ", "bar".
pub fn split_words(s: &str) -> (r: Vec<String>)
    ensures
        r.deep_view() == words_of(s@),
{
    let n = s.unicode_len();
    let mut res: Vec<String> = Vec::new();
    let mut i: usize = 0;
    proof {
        assert(s@.skip(0) =~= s@);
        assert(res.deep_view() + words_of(s@) =~= words_of(s@));
    }
    while i < n
        invariant
            n == s@.len(),
            i <= n,
            res.deep_view() + words_of(s@.skip(i as int)) == words_of(s@),
        decreases n - i,
    {
        let start = i;
        let c = s.get_char(i);
        i = i + 1;
        if is_word_char_exec(c) {
            while i < n && is_word_char_exec(s.get_char(i))
                invariant
                    n == s@.len(),
                    start < i <= n,
                    forall|k: int| start <= k < i ==> is_word_char(#[trigger] s@[k]),
                decreases n - i,
            {
                i = i + 1;
            }
        }
        let ghost rest = s@.skip(start as int);
        proof {
            if is_word_char(c) {
                assert forall|k: int| 0 <= k < i - start implies is_word_char(#[trigger] rest[k]) by {
                    assert(rest[k] == s@[start + k]);
                }
                if i < n {
                    assert(rest[i - start] == s@[i as int]);
                }
                lemma_word_run_len(rest, i - start);
            }
            assert(rest[0] == c);
            assert(rest.take(i - start) =~= s@.subrange(start as int, i as int));
            assert(rest.skip(i - start) =~= s@.skip(i as int));
        }
        let w = s.substring_char(start, i).to_owned();
        let ghost before = res.deep_view();
        res.push(w);
        proof {
            assert(res.deep_view() =~= before.push(w@));
            assert(before.push(w@) + words_of(s@.skip(i as int)) =~= before + words_of(rest));
        }
    }
    proof {
        assert(s@.skip(n as int) =~= Seq::<char>::empty());
        assert(res.deep_view() + words_of(s@.skip(i as int)) =~= res.deep_view());
    }
    res
}

} // verus!
