use vstd::prelude::*;

use crate::Input;
use crate::ParseError;

verus! {

/// Tokens of a request text are separated by spaces and newlines.
pub open spec fn is_delim(c: char) -> bool {
    c == ' ' || c == '\n'
}

/// Length of the leading run of non-delimiter characters.
pub open spec fn token_len(s: Seq<char>) -> nat
    decreases s.len(),
{
    if s.len() == 0 || is_delim(s[0]) {
        0
    } else {
        token_len(s.skip(1)) + 1
    }
}

proof fn lemma_token_len_le(s: Seq<char>)
    ensures
        token_len(s) <= s.len(),
    decreases s.len(),
{
    if s.len() == 0 || is_delim(s[0]) {
    } else {
        lemma_token_len_le(s.skip(1));
    }
}

/// The whitespace-separated tokens of a text, with empty tokens dropped.
pub open spec fn tokens_of(s: Seq<char>) -> Seq<Seq<char>>
    decreases s.len(),
    via tokens_of_decreases
{
    if s.len() == 0 {
        Seq::empty()
    } else if is_delim(s[0]) {
        tokens_of(s.skip(1))
    } else {
        seq![s.take(token_len(s) as int)] + tokens_of(s.skip(token_len(s) as int))
    }
}

#[via_fn]
proof fn tokens_of_decreases(s: Seq<char>) {
    lemma_token_len_le(s);
}

/// A decimal digit, by its code point.
pub open spec fn is_digit(c: char) -> bool {
    48 <= c as u32 && c as u32 <= 57
}

pub open spec fn digit_val(c: char) -> nat {
    (c as u32 - 48) as nat
}

pub open spec fn all_digits(t: Seq<char>) -> bool {
    forall|k: int| 0 <= k < t.len() ==> is_digit(#[trigger] t[k])
}

/// The base-10 value of a digit string.
pub open spec fn digits_val(t: Seq<char>) -> nat
    decreases t.len(),
{
    if t.len() == 0 {
        0
    } else {
        digits_val(t.drop_last()) * 10 + digit_val(t.last())
    }
}

/// A token that yields a tempo or a key: one or more digits whose value fits in 32 bits.
pub open spec fn is_u32_token(t: Seq<char>) -> bool {
    t.len() >= 1 && all_digits(t) && digits_val(t) <= u32::MAX
}

/// The protocol magic string.
pub open spec fn magic_chars() -> Seq<char> {
    seq!['n', 'a', 'i', 'v', 'e', '-', 'r', 'h', 'y', 't', 'h', 'm']
}

/// The keyword that announces the tempo token.
pub open spec fn bpm_chars() -> Seq<char> {
    seq!['b', 'p', 'm']
}

/// What parsing a request text yields: the tempo value and the key values in
/// document order, or the error for the first rule the text breaks.
pub open spec fn spec_parse(s: Seq<char>) -> Result<(nat, Seq<nat>), ParseError> {
    let ts = tokens_of(s);
    if ts.len() < 1 || ts[0] != magic_chars() {
        Err(ParseError::BadMagic)
    } else if ts.len() < 2 || ts[1] != bpm_chars() {
        Err(ParseError::BadBpm)
    } else if ts.len() < 3 || !is_u32_token(ts[2]) {
        Err(ParseError::BadBpm)
    } else if exists|k: int| 3 <= k < ts.len() && !is_u32_token(#[trigger] ts[k]) {
        Err(ParseError::BadKey)
    } else {
        Ok((digits_val(ts[2]), ts.skip(3).map_values(|t: Seq<char>| digits_val(t))))
    }
}

/// The end of the token that starts at `start`: the first position at or past
/// `start` that holds a delimiter, or the end of the text.
fn scan_token(s: &str, start: usize) -> (j: usize)
    requires
        start < s@.len(),
        !is_delim(s@[start as int]),
    ensures
        start < j <= s@.len(),
        forall|m: int| start <= m < j ==> !is_delim(s@[m]),
        j == s@.len() || is_delim(s@[j as int]),
{
    let n = s.unicode_len();
    let mut j: usize = start + 1;
    loop
        invariant
            n == s@.len(),
            start < j <= n,
            forall|m: int| start <= m < j ==> !is_delim(s@[m]),
        ensures
            start < j <= n,
            forall|m: int| start <= m < j ==> !is_delim(s@[m]),
            j == n || is_delim(s@[j as int]),
        decreases n - j,
    {
        if j == n {
            break;
        }
        let c = s.get_char(j);
        if c == ' ' || c == '\n' {
            break;
        }
        j = j + 1;
    }
    j
}

/// `token_len` of the tail starting at `i` reaches exactly to `j` when the
/// characters in between are not delimiters and `j` sits on a delimiter or at
/// the end.
proof fn lemma_token_boundary(s: Seq<char>, i: int, j: int)
    requires
        0 <= i < j <= s.len(),
        forall|m: int| i <= m < j ==> !is_delim(s[m]),
        j == s.len() || is_delim(s[j]),
    ensures
        token_len(s.skip(i)) == j - i,
    decreases j - i,
{
    let u = s.skip(i);
    assert(u.len() == s.len() - i);
    assert(u[0] == s[i]);
    assert(!is_delim(u[0]));
    assert(u.skip(1) =~= s.skip(i + 1));
    assert(token_len(u) == 1 + token_len(s.skip(i + 1)));
    if i + 1 == j {
        if j == s.len() {
            assert(s.skip(j).len() == 0);
            assert(token_len(s.skip(j)) == 0);
        } else {
            assert(s.skip(j)[0] == s[j]);
            assert(token_len(s.skip(j)) == 0);
        }
    } else {
        lemma_token_boundary(s, i + 1, j);
    }
}

/// Splits a text into its tokens.
fn tokenize(s: &str) -> (toks: Vec<Vec<char>>)
    ensures
        toks@.map_values(|t: Vec<char>| t@) == tokens_of(s@),
{
    let n = s.unicode_len();
    let mut toks: Vec<Vec<char>> = Vec::new();
    let mut i: usize = 0;
    proof {
        assert(s@.skip(0) =~= s@);
        assert(toks@.map_values(|t: Vec<char>| t@) + tokens_of(s@) =~= tokens_of(s@));
    }
    while i < n
        invariant
            n == s@.len(),
            i <= n,
            toks@.map_values(|t: Vec<char>| t@) + tokens_of(s@.skip(i as int)) == tokens_of(s@),
        decreases n - i,
    {
        let ghost prefix = toks@.map_values(|t: Vec<char>| t@);
        let c = s.get_char(i);
        if c == ' ' || c == '\n' {
            proof {
                assert(s@.skip(i as int).skip(1) =~= s@.skip(i as int + 1));
            }
            i = i + 1;
        } else {
            let j = scan_token(s, i);
            let mut tok: Vec<char> = Vec::new();
            let mut k: usize = i;
            while k < j
                invariant
                    n == s@.len(),
                    i <= k <= j <= n,
                    tok@ == s@.subrange(i as int, k as int),
                decreases j - k,
            {
                let ck = s.get_char(k);
                tok.push(ck);
                proof {
                    assert(s@.subrange(i as int, k as int).push(s@[k as int]) =~= s@.subrange(
                        i as int,
                        k as int + 1,
                    ));
                }
                k = k + 1;
            }
            proof {
                lemma_token_boundary(s@, i as int, j as int);
                let u = s@.skip(i as int);
                assert(u.len() > 0 && !is_delim(u[0]));
                assert(u.take(j - i) =~= s@.subrange(i as int, j as int));
                assert(u.skip(j - i) =~= s@.skip(j as int));
                assert(tokens_of(u) == seq![tok@] + tokens_of(s@.skip(j as int)));
            }
            toks.push(tok);
            proof {
                assert(toks@.map_values(|t: Vec<char>| t@) =~= prefix + seq![tok@]);
                assert(prefix + (seq![tok@] + tokens_of(s@.skip(j as int))) =~= (prefix + seq![
                    tok@,
                ]) + tokens_of(s@.skip(j as int)));
            }
            i = j;
        }
    }
    proof {
        assert(s@.skip(n as int).len() == 0);
        assert(tokens_of(s@.skip(n as int)) =~= Seq::<Seq<char>>::empty());
        assert(toks@.map_values(|t: Vec<char>| t@) + Seq::<Seq<char>>::empty() =~= toks@.map_values(
            |t: Vec<char>| t@,
        ));
    }
    toks
}

/// The value of a longer digit prefix never falls below that of a shorter one.
proof fn lemma_digits_val_prefix_mono(t: Seq<char>, i: int)
    requires
        0 <= i <= t.len(),
    ensures
        digits_val(t.take(i)) <= digits_val(t),
    decreases t.len() - i,
{
    if i == t.len() {
        assert(t.take(i) =~= t);
    } else {
        assert(t.take(i + 1).drop_last() =~= t.take(i));
        assert(t.take(i + 1).last() == t[i]);
        assert(digits_val(t.take(i)) <= digits_val(t.take(i)) * 10 + digit_val(t[i]));
        lemma_digits_val_prefix_mono(t, i + 1);
    }
}

/// Reads a whole token as a base-10 unsigned 32-bit integer.
fn parse_u32_token(tok: &Vec<char>) -> (r: Option<u32>)
    ensures
        r is Some <==> is_u32_token(tok@),
        r matches Some(v) ==> v as nat == digits_val(tok@),
{
    if tok.len() == 0 {
        return None;
    }
    let mut acc: u32 = 0;
    let mut k: usize = 0;
    while k < tok.len()
        invariant
            k <= tok@.len(),
            forall|m: int| 0 <= m < k ==> is_digit(#[trigger] tok@[m]),
            acc as nat == digits_val(tok@.take(k as int)),
        decreases tok@.len() - k,
    {
        let c = tok[k];
        let cv = c as u32;
        if cv < 48 || cv > 57 {
            return None;
        }
        let d = cv - 48;
        proof {
            assert(is_digit(tok@[k as int]));
            assert(d as nat == digit_val(tok@[k as int]));
            assert(tok@.take(k as int + 1).drop_last() =~= tok@.take(k as int));
            assert(tok@.take(k as int + 1).last() == tok@[k as int]);
            assert(digits_val(tok@.take(k as int + 1)) == digits_val(tok@.take(k as int)) * 10
                + digit_val(tok@[k as int]));
        }
        let wide: u64 = acc as u64 * 10 + d as u64;
        if wide > u32::MAX as u64 {
            proof {
                lemma_digits_val_prefix_mono(tok@, k as int + 1);
            }
            return None;
        }
        acc = wide as u32;
        k = k + 1;
    }
    proof {
        assert(tok@.take(tok@.len() as int) =~= tok@);
    }
    Some(acc)
}

/// Whether a token equals a pattern string, character for character.
fn token_eq(tok: &Vec<char>, pat: &str) -> (r: bool)
    ensures
        r == (tok@ == pat@),
{
    let n = pat.unicode_len();
    if tok.len() != n {
        return false;
    }
    let mut k: usize = 0;
    while k < n
        invariant
            n == pat@.len(),
            tok@.len() == n,
            k <= n,
            forall|m: int| 0 <= m < k ==> tok@[m] == pat@[m],
        decreases n - k,
    {
        if tok[k] != pat.get_char(k) {
            return false;
        }
        k = k + 1;
    }
    proof {
        assert(tok@ =~= pat@);
    }
    true
}

/// Reads a request text: the magic string, the `bpm` keyword, the tempo token,
/// then any number of key tokens, all separated by spaces or newlines.
pub fn parse(s: &str) -> (r: Result<Input, ParseError>)
    ensures
        match spec_parse(s@) {
            Ok(v) => r matches Ok(inp) && inp.bpm as nat == v.0 && inp.keys@.map_values(
                |k: u32| k as nat,
            ) == v.1,
            Err(e) => r matches Err(pe) && pe == e,
        },
{
    proof {
        reveal_strlit("naive-rhythm");
        reveal_strlit("bpm");
        assert("naive-rhythm"@ =~= magic_chars());
        assert("bpm"@ =~= bpm_chars());
    }
    let toks = tokenize(s);
    let ghost ts = tokens_of(s@);
    if toks.len() < 1 || !token_eq(&toks[0], "naive-rhythm") {
        return Err(ParseError::BadMagic);
    }
    if toks.len() < 2 || !token_eq(&toks[1], "bpm") {
        return Err(ParseError::BadBpm);
    }
    if toks.len() < 3 {
        return Err(ParseError::BadBpm);
    }
    let bpm = match parse_u32_token(&toks[2]) {
        Some(b) => b,
        None => {
            return Err(ParseError::BadBpm);
        },
    };
    let mut keys: Vec<u32> = Vec::new();
    let mut idx: usize = 3;
    while idx < toks.len()
        invariant
            ts == tokens_of(s@),
            toks@.map_values(|t: Vec<char>| t@) == ts,
            ts.len() == toks@.len(),
            ts.len() >= 3,
            ts[0] == magic_chars(),
            ts[1] == bpm_chars(),
            is_u32_token(ts[2]),
            3 <= idx <= toks@.len(),
            forall|m: int| 3 <= m < idx ==> is_u32_token(#[trigger] ts[m]),
            keys@.len() == idx - 3,
            forall|m: int| 0 <= m < keys@.len() ==> (#[trigger] keys@[m]) as nat == digits_val(
                ts[m + 3],
            ),
        decreases toks@.len() - idx,
    {
        match parse_u32_token(&toks[idx]) {
            Some(v) => {
                keys.push(v);
            },
            None => {
                proof {
                    assert(ts[idx as int] == toks@.map_values(|t: Vec<char>| t@)[idx as int]);
                    assert(ts[idx as int] == toks@[idx as int]@);
                    assert(3 <= idx < ts.len() && !is_u32_token(ts[idx as int]));
                }
                return Err(ParseError::BadKey);
            },
        }
        idx = idx + 1;
    }
    proof {
        assert(keys@.map_values(|k: u32| k as nat) =~= ts.skip(3).map_values(
            |t: Seq<char>| digits_val(t),
        ));
    }
    Ok(Input { bpm, keys })
}

} // verus!
