//! Statements: reading an `insert` or `select` command from a line of input.
use vstd::prelude::*;
use vstd::string::StrSliceExecFns;
use vstd::utf8::encode_utf8;
use crate::constants::{EMAIL_SIZE, USERNAME_SIZE};
use crate::row::{empty_row, Row};

verus! {

/// The kinds of statement.
#[derive(PartialEq, Eq, Structural, Debug, Clone, Copy)]
pub enum StatementType {
    Insert,
    Select,
}

/// A prepared statement; `row_to_insert` is used by `insert` alone.
pub struct Statement {
    pub statement_type: StatementType,
    pub row_to_insert: Row,
}

/// Why a line is not a statement.
#[derive(PartialEq, Eq, Structural, Debug, Clone, Copy)]
pub enum PrepareError {
    /// The line starts with neither `insert` nor `select`.
    UnrecognizedStatement,
    /// An `insert` lacks a field, or its id is not a 32-bit integer.
    SyntaxError,
    /// An `insert` gives a negative id.
    NegativeId,
    /// An `insert` gives a username or email longer than its field.
    StringTooLong,
}

/// `c` has the Unicode `White_Space` property.
pub open spec fn is_whitespace(c: char) -> bool {
    let v = c as u32;
    ||| 0x09 <= v <= 0x0D
    ||| v == 0x20
    ||| v == 0x85
    ||| v == 0xA0
    ||| v == 0x1680
    ||| 0x2000 <= v <= 0x200A
    ||| v == 0x2028
    ||| v == 0x2029
    ||| v == 0x202F
    ||| v == 0x205F
    ||| v == 0x3000
}

/// The first position at or after `i` that holds no whitespace, or the end.
pub open spec fn skip_ws(s: Seq<char>, i: nat) -> nat
    decreases s.len() - i,
{
    if i < s.len() && is_whitespace(s[i as int]) {
        skip_ws(s, i + 1)
    } else {
        i
    }
}

/// The first position at or after `i` that holds whitespace, or the end.
pub open spec fn token_end(s: Seq<char>, i: nat) -> nat
    decreases s.len() - i,
{
    if i < s.len() && !is_whitespace(s[i as int]) {
        token_end(s, i + 1)
    } else {
        i
    }
}

/// Where the whitespace-separated token `n` (counting from 0) starts, or
/// the end when `s` has fewer tokens.
pub open spec fn token_start(s: Seq<char>, n: nat) -> nat
    decreases n,
{
    if n == 0 {
        skip_ws(s, 0)
    } else {
        skip_ws(s, token_end(s, token_start(s, (n - 1) as nat)))
    }
}

/// Token `n` of `s`, the tokens being the maximal runs of characters that
/// are not whitespace.
pub open spec fn token(s: Seq<char>, n: nat) -> Option<Seq<char>> {
    let a = token_start(s, n);
    if a < s.len() {
        Some(s.subrange(a as int, token_end(s, a) as int))
    } else {
        None
    }
}

/// `s` begins with `p`.
pub open spec fn starts_with(s: Seq<char>, p: Seq<char>) -> bool {
    p.len() <= s.len() && s.take(p.len() as int) == p
}

/// The keyword of an insert statement.
pub open spec fn insert_word() -> Seq<char> {
    seq!['i', 'n', 's', 'e', 'r', 't']
}

/// The keyword of a select statement.
pub open spec fn select_word() -> Seq<char> {
    seq!['s', 'e', 'l', 'e', 'c', 't']
}

/// `c` is an ASCII decimal digit.
pub open spec fn is_digit(c: char) -> bool {
    '0' <= c <= '9'
}

/// The number that a run of decimal digits writes.
pub open spec fn digits_value(d: Seq<char>) -> int
    decreases d.len(),
{
    if d.len() == 0 {
        0
    } else {
        digits_value(d.drop_last()) * 10 + (d.last() as int - '0' as int)
    }
}

/// Every character of `d` is a decimal digit.
pub open spec fn all_digits(d: Seq<char>) -> bool {
    forall|i: int| 0 <= i < d.len() ==> is_digit(#[trigger] d[i])
}

/// `t` without its leading `+` or `-`, if it has one.
pub open spec fn unsigned_part(t: Seq<char>) -> Seq<char> {
    if t.len() > 0 && (t[0] == '-' || t[0] == '+') {
        t.drop_first()
    } else {
        t
    }
}

/// The 32-bit signed integer that `t` writes: an optional `+` or `-`, then
/// one or more decimal digits; `None` for any other text or a value out of
/// range.
pub open spec fn parse_i32(t: Seq<char>) -> Option<int> {
    let digits = unsigned_part(t);
    let v = if t.len() > 0 && t[0] == '-' {
        -digits_value(digits)
    } else {
        digits_value(digits)
    };
    if digits.len() > 0 && all_digits(digits) && i32::MIN <= v <= i32::MAX {
        Some(v)
    } else {
        None
    }
}

/// `b` followed by zero bytes up to length `n`.
pub open spec fn padded(b: Seq<u8>, n: nat) -> Seq<u8> {
    b + Seq::new((n - b.len()) as nat, |i: int| 0u8)
}

/// The id, username bytes and email bytes of an `insert` line, or why it
/// is refused.
pub open spec fn insert_fields(s: Seq<char>) -> Result<(int, Seq<u8>, Seq<u8>), PrepareError> {
    match token(s, 1) {
        None => Err(PrepareError::SyntaxError),
        Some(id) => match parse_i32(id) {
            None => Err(PrepareError::SyntaxError),
            Some(v) => if v < 0 {
                Err(PrepareError::NegativeId)
            } else {
                match (token(s, 2), token(s, 3)) {
                    (Some(u), Some(e)) => {
                        let ub = encode_utf8(u);
                        let eb = encode_utf8(e);
                        if ub.len() > USERNAME_SIZE || eb.len() > EMAIL_SIZE {
                            Err(PrepareError::StringTooLong)
                        } else {
                            Ok((v, ub, eb))
                        }
                    },
                    _ => Err(PrepareError::SyntaxError),
                }
            },
        },
    }
}

/// The kind of statement that line `s` holds, or why it holds none.
pub open spec fn statement_kind(s: Seq<char>) -> Result<StatementType, PrepareError> {
    if starts_with(s, insert_word()) {
        match insert_fields(s) {
            Ok(_) => Ok(StatementType::Insert),
            Err(e) => Err(e),
        }
    } else if starts_with(s, select_word()) {
        Ok(StatementType::Select)
    } else {
        Err(PrepareError::UnrecognizedStatement)
    }
}

/// Whether `c` is whitespace.
pub fn char_is_whitespace(c: char) -> (b: bool)
    ensures
        b == is_whitespace(c),
{
    let v = c as u32;
    (0x09 <= v && v <= 0x0D) || v == 0x20 || v == 0x85 || v == 0xA0 || v == 0x1680 || (0x2000
        <= v && v <= 0x200A) || v == 0x2028 || v == 0x2029 || v == 0x202F || v == 0x205F || v
        == 0x3000
}

/// The characters of `input`, in order.
fn chars_of(input: &str) -> (chars: Vec<char>)
    ensures
        chars@ == input@,
{
    let n = input.unicode_len();
    let mut chars: Vec<char> = Vec::new();
    let mut i: usize = 0;
    while i < n
        invariant
            n == input@.len(),
            i <= n,
            chars@ == input@.take(i as int),
        decreases n - i,
    {
        chars.push(input.get_char(i));
        proof {
            assert(input@.take(i + 1) =~= input@.take(i as int).push(input@[i as int]));
        }
        i += 1;
    }
    proof {
        assert(input@.take(n as int) =~= input@);
    }
    chars
}

/// Whether `s` begins with `word`.
fn starts_with_word(s: &Vec<char>, word: &[char]) -> (b: bool)
    ensures
        b == starts_with(s@, word@),
{
    if word.len() > s.len() {
        return false;
    }
    let mut i: usize = 0;
    while i < word.len()
        invariant
            word@.len() <= s@.len(),
            i <= word@.len(),
            s@.take(i as int) == word@.take(i as int),
        decreases word.len() - i,
    {
        if s[i] != word[i] {
            proof {
                assert(s@.take(word@.len() as int)[i as int] != word@[i as int]);
            }
            return false;
        }
        proof {
            assert(s@.take(i + 1) =~= s@.take(i as int).push(s@[i as int]));
            assert(word@.take(i + 1) =~= word@.take(i as int).push(word@[i as int]));
        }
        i += 1;
    }
    proof {
        assert(word@.take(word@.len() as int) =~= word@);
    }
    true
}

/// The first position at or after `i` without whitespace, or the end.
fn skip_whitespace(s: &Vec<char>, i: usize) -> (j: usize)
    requires
        i <= s@.len(),
    ensures
        j == skip_ws(s@, i as nat),
        j <= s@.len(),
{
    let mut j = i;
    while j < s.len() && char_is_whitespace(s[j])
        invariant
            i <= j <= s@.len(),
            skip_ws(s@, j as nat) == skip_ws(s@, i as nat),
        decreases s@.len() - j,
    {
        j += 1;
    }
    j
}

/// The first position at or after `i` with whitespace, or the end.
fn find_token_end(s: &Vec<char>, i: usize) -> (j: usize)
    requires
        i <= s@.len(),
    ensures
        j == token_end(s@, i as nat),
        i <= j <= s@.len(),
{
    let mut j = i;
    while j < s.len() && !char_is_whitespace(s[j])
        invariant
            i <= j <= s@.len(),
            token_end(s@, j as nat) == token_end(s@, i as nat),
        decreases s@.len() - j,
    {
        j += 1;
    }
    j
}

proof fn lemma_skip_ws_bound(s: Seq<char>, i: nat)
    ensures
        i <= skip_ws(s, i),
        i <= s.len() ==> skip_ws(s, i) <= s.len(),
    decreases s.len() - i,
{
    if i < s.len() && is_whitespace(s[i as int]) {
        lemma_skip_ws_bound(s, i + 1);
    }
}

proof fn lemma_token_end_bound(s: Seq<char>, i: nat)
    ensures
        i <= token_end(s, i),
        i <= s.len() ==> token_end(s, i) <= s.len(),
    decreases s.len() - i,
{
    if i < s.len() && !is_whitespace(s[i as int]) {
        lemma_token_end_bound(s, i + 1);
    }
}

/// The bounds of token `n` of `s`, given where token `n - 1` ends.
fn next_token(s: &Vec<char>, prev_end: usize, Ghost(n): Ghost<nat>) -> (r: (usize, usize))
    requires
        prev_end <= s@.len(),
        n == 0 ==> prev_end == 0,
        n > 0 ==> prev_end == token_end(s@, token_start(s@, (n - 1) as nat)),
    ensures
        r.0 == token_start(s@, n),
        r.1 == token_end(s@, r.0 as nat),
        r.0 <= r.1 <= s@.len(),
{
    let a = skip_whitespace(s, prev_end);
    let e = find_token_end(s, a);
    (a, e)
}

/// The value of the digits `s[start..end]`, capped at `2^31 + 1`; `None`
/// when one of them is not a digit.
fn capped_digits(s: &Vec<char>, start: usize, end: usize) -> (r: Option<i64>)
    requires
        start <= end <= s@.len(),
    ensures
        match r {
            Some(v) => {
                &&& forall|i: int| start <= i < end ==> is_digit(#[trigger] s@[i])
                &&& 0 <= digits_value(s@.subrange(start as int, end as int))
                &&& v == if digits_value(s@.subrange(start as int, end as int)) < 0x8000_0001 {
                    digits_value(s@.subrange(start as int, end as int))
                } else {
                    0x8000_0001
                }
            },
            None => exists|i: int| start <= i < end && !is_digit(#[trigger] s@[i]),
        },
{
    let mut acc: i64 = 0;
    let mut k = start;
    while k < end
        invariant
            start <= k <= end <= s@.len(),
            forall|i: int| start <= i < k ==> is_digit(#[trigger] s@[i]),
            0 <= digits_value(s@.subrange(start as int, k as int)),
            acc == if digits_value(s@.subrange(start as int, k as int)) < 0x8000_0001 {
                digits_value(s@.subrange(start as int, k as int))
            } else {
                0x8000_0001
            },
        decreases end - k,
    {
        let c = s[k];
        if !('0' <= c && c <= '9') {
            return None;
        }
        let d = (c as u32 - '0' as u32) as i64;
        let next = acc * 10 + d;
        acc = if next < 0x8000_0001 { next } else { 0x8000_0001 };
        proof {
            let sub = s@.subrange(start as int, k + 1);
            assert(sub.drop_last() =~= s@.subrange(start as int, k as int));
            assert(sub.last() == c);
        }
        k += 1;
    }
    Some(acc)
}

/// Parse `s[start..end]` as a 32-bit signed integer.
fn parse_i32_range(s: &Vec<char>, start: usize, end: usize) -> (r: Option<i32>)
    requires
        start <= end <= s@.len(),
    ensures
        match r {
            Some(v) => parse_i32(s@.subrange(start as int, end as int)) == Some(v as int),
            None => parse_i32(s@.subrange(start as int, end as int)) is None,
        },
{
    let ghost t = s@.subrange(start as int, end as int);
    if start == end {
        return None;
    }
    let first = s[start];
    let negative = first == '-';
    let digits_start = if first == '-' || first == '+' {
        start + 1
    } else {
        start
    };
    let ghost digits = s@.subrange(digits_start as int, end as int);
    proof {
        assert(t[0] == first);
        assert(unsigned_part(t) =~= digits);
    }
    if digits_start == end {
        return None;
    }
    match capped_digits(s, digits_start, end) {
        None => {
            proof {
                let i = choose|i: int| digits_start <= i < end && !is_digit(#[trigger] s@[i]);
                assert(digits[i - digits_start] == s@[i]);
            }
            None
        },
        Some(v) => {
            proof {
                assert forall|i: int| 0 <= i < digits.len() implies is_digit(#[trigger] digits[i]) by {
                    assert(digits[i] == s@[digits_start + i]);
                }
            }
            if negative {
                if v <= 0x8000_0000 {
                    Some((-v) as i32)
                } else {
                    None
                }
            } else {
                if v <= 0x7fff_ffff {
                    Some(v as i32)
                } else {
                    None
                }
            }
        },
    }
}

/// The bytes of `input`, zero-padded to `N` bytes; an error when `input`
/// takes more than `N` bytes.
pub fn fixed_bytes<const N: usize>(input: &str) -> (r: Result<[u8; N], ()>)
    ensures
        match r {
            Ok(buffer) => {
                &&& encode_utf8(input@).len() <= N
                &&& buffer@ == padded(encode_utf8(input@), N as nat)
            },
            Err(()) => encode_utf8(input@).len() > N,
        },
{
    let bytes = input.as_bytes();
    let len = bytes.len();
    if len > N {
        return Err(());
    }
    let mut buffer = [0u8; N];
    let mut i: usize = 0;
    while i < N
        invariant
            len == bytes@.len(),
            len <= N,
            bytes@ == encode_utf8(input@),
            i <= N,
            buffer@.len() == N,
            forall|j: int| 0 <= j < i ==> #[trigger] buffer@[j] == padded(bytes@, N as nat)[j],
        decreases N - i,
    {
        if i < len {
            buffer[i] = bytes[i];
        } else {
            buffer[i] = 0;
        }
        i += 1;
    }
    proof {
        assert(buffer@ =~= padded(bytes@, N as nat));
    }
    Ok(buffer)
}

/// Read a statement from a line of input.
pub fn prepare_statement(input: &str) -> (r: Result<Statement, PrepareError>)
    ensures
        match r {
            Ok(statement) => {
                &&& statement_kind(input@) == Ok::<StatementType, PrepareError>(
                    statement.statement_type,
                )
                &&& statement.statement_type == StatementType::Insert ==> insert_fields(input@)
                    == Ok::<(int, Seq<u8>, Seq<u8>), PrepareError>(
                    (
                        statement.row_to_insert.id as int,
                        encode_utf8(token(input@, 2)->0),
                        encode_utf8(token(input@, 3)->0),
                    ),
                ) && statement.row_to_insert.username@ == padded(
                    encode_utf8(token(input@, 2)->0),
                    USERNAME_SIZE as nat,
                ) && statement.row_to_insert.email@ == padded(
                    encode_utf8(token(input@, 3)->0),
                    EMAIL_SIZE as nat,
                )
                &&& statement.statement_type == StatementType::Select ==> {
                    &&& statement.row_to_insert.id == 0
                    &&& statement.row_to_insert.username@ == Seq::new(
                        USERNAME_SIZE as nat,
                        |i: int| 0u8,
                    )
                    &&& statement.row_to_insert.email@ == Seq::new(EMAIL_SIZE as nat, |i: int| 0u8)
                }
            },
            Err(e) => statement_kind(input@) == Err::<StatementType, PrepareError>(e),
        },
{
    let chars = chars_of(input);
    let insert_word_chars = ['i', 'n', 's', 'e', 'r', 't'];
    let select_word_chars = ['s', 'e', 'l', 'e', 'c', 't'];
    proof {
        assert(insert_word_chars@ =~= insert_word());
        assert(select_word_chars@ =~= select_word());
    }
    if starts_with_word(&chars, insert_word_chars.as_slice()) {
        let ghost s = chars@;
        let (a0, e0) = next_token(&chars, 0, Ghost(0));
        let (a1, e1) = next_token(&chars, e0, Ghost(1));
        if a1 >= chars.len() {
            return Err(PrepareError::SyntaxError);
        }
        let parsed_id = match parse_i32_range(&chars, a1, e1) {
            Some(v) => v,
            None => {
                return Err(PrepareError::SyntaxError);
            },
        };
        if parsed_id < 0 {
            return Err(PrepareError::NegativeId);
        }
        let (a2, e2) = next_token(&chars, e1, Ghost(2));
        if a2 >= chars.len() {
            return Err(PrepareError::SyntaxError);
        }
        let (a3, e3) = next_token(&chars, e2, Ghost(3));
        if a3 >= chars.len() {
            return Err(PrepareError::SyntaxError);
        }
        let username = input.substring_char(a2, e2);
        let email = input.substring_char(a3, e3);
        let username_bytes = match fixed_bytes::<USERNAME_SIZE>(username) {
            Ok(b) => b,
            Err(()) => {
                return Err(PrepareError::StringTooLong);
            },
        };
        let email_bytes = match fixed_bytes::<EMAIL_SIZE>(email) {
            Ok(b) => b,
            Err(()) => {
                return Err(PrepareError::StringTooLong);
            },
        };
        let row = Row { id: parsed_id as u32, username: username_bytes, email: email_bytes };
        return Ok(Statement { statement_type: StatementType::Insert, row_to_insert: row });
    }
    if starts_with_word(&chars, select_word_chars.as_slice()) {
        let row = empty_row();
        proof {
            assert(row.username@ =~= Seq::new(USERNAME_SIZE as nat, |i: int| 0u8));
            assert(row.email@ =~= Seq::new(EMAIL_SIZE as nat, |i: int| 0u8));
        }
        return Ok(Statement { statement_type: StatementType::Select, row_to_insert: row });
    }
    Err(PrepareError::UnrecognizedStatement)
}

} // verus!
