//! Two-Line Element sets: the column layout of each line, the checksum, and
//! the validation of a set read from text.
use vstd::prelude::*;
use vstd::string::StringSliceAdditionalSpecFns;
use vstd::utf8::encode_utf8;

use crate::text::{
    all_white, join_lines, keep_nonblank, lemma_keep_nonblank_crlf,
    lemma_keep_nonblank_insert_blank, lemma_keep_nonblank_pad, lemma_nonblank_lines_of_joined,
    lemma_split_newlines_of_joined, lemma_trim_idempotent, no_line_feeds, nonblank_lines,
    nonblank_lines_of, trim, trim_chars,
};

verus! {

/// The length of line 1, in bytes: shorter and longer lines are refused.
pub const LINE1_LEN: usize = 69;

/// Byte offsets of line 1 that must hold a space.
pub const LINE1_SPACE_INDICES: [usize; 7] = [8, 17, 32, 43, 52, 61, 63];

/// Byte offsets of line 1 that must hold a '.'.
pub const LINE1_DOT_INDICES: [usize; 2] = [23, 34];

/// Byte offsets of line 1 that must hold '+', '-' or a space.
pub const LINE1_SIGN_OR_SPACE_INDICES: [usize; 2] = [33, 44];

/// Byte offsets of line 1 that hold the sign of an exponent field: '+' or
/// '-', or else a blank, and then the byte after it is blank too.
pub const LINE1_EXPONENT_INDICES: [usize; 2] = [50, 59];

/// The length of line 2, in bytes: shorter and longer lines are refused.
pub const LINE2_LEN: usize = 69;

/// Byte offsets of line 2 that must hold a space.
pub const LINE2_SPACE_INDICES: [usize; 6] = [7, 16, 25, 33, 42, 51];

/// Byte offsets of line 2 that must hold a '.'.
pub const LINE2_DOT_INDICES: [usize; 5] = [11, 20, 37, 46, 54];

/// Why a Two-Line Element set was refused. Columns are 1-based, as in the
/// format's documentation.
#[derive(Debug, Clone, Copy, PartialEq, Eq, Structural)]
pub enum TleError {
    /// The line (1 or 2) is shorter than its fixed length.
    TooShort { line: u8 },
    /// The line (1 or 2) is longer than its fixed length.
    TooLong { line: u8 },
    /// The line does not start with its line number and a space.
    BadLineStart { line: u8 },
    /// A space was expected at this column.
    ExpectedSpace { line: u8, column: usize },
    /// A '.' was expected at this column.
    ExpectedDot { line: u8, column: usize },
    /// '+', '-' or a space was expected at this column of line 1.
    ExpectedSignOrSpace { column: usize },
    /// The exponent sign at this column of line 1 is neither '+', '-' nor blank.
    ExpectedExponentSign { column: usize },
    /// A blank exponent sign at this column of line 1 is followed by a non-blank.
    ExpectedConsecutiveSpaces { column: usize },
    /// The line has no bytes at all, so no checksum digit.
    EmptyLine,
    /// The last byte of the line is not a decimal digit.
    ChecksumNotDigit,
    /// The checksum digit does not match the checksum of the rest of the line.
    ChecksumMismatch { expected: u8, actual: u8 },
    /// The text holds a number of non-blank lines other than 2 or 3.
    WrongLineCount { count: usize },
}

/// What one byte adds to a line's checksum: a digit its value, '-' one,
/// anything else nothing.
pub open spec fn checksum_weight(b: u8) -> nat {
    if ('0' as u8) <= b <= ('9' as u8) {
        (b - ('0' as u8)) as nat
    } else if b == ('-' as u8) {
        1
    } else {
        0
    }
}

/// The sum of the checksum weights of the bytes.
pub open spec fn checksum_sum(s: Seq<u8>) -> nat
    decreases s.len(),
{
    if s.len() == 0 {
        0
    } else {
        checksum_sum(s.drop_last()) + checksum_weight(s.last())
    }
}

/// The checksum of a byte sequence: the sum of its weights modulo 10.
pub open spec fn checksum(s: Seq<u8>) -> u8 {
    (checksum_sum(s) % 10) as u8
}

/// Whether the byte is an ASCII decimal digit.
pub open spec fn is_digit(b: u8) -> bool {
    ('0' as u8) <= b <= ('9' as u8)
}

/// The outcome of checking the last byte of a line as the checksum of the others.
pub open spec fn checksum_outcome(s: Seq<u8>) -> Result<(), TleError> {
    if s.len() == 0 {
        Err(TleError::EmptyLine)
    } else if !is_digit(s.last()) {
        Err(TleError::ChecksumNotDigit)
    } else if checksum(s.drop_last()) != (s.last() - ('0' as u8)) {
        Err(
            TleError::ChecksumMismatch {
                expected: (s.last() - ('0' as u8)) as u8,
                actual: checksum(s.drop_last()),
            },
        )
    } else {
        Ok(())
    }
}

/// The first of `indices`, in their order, at which `bytes` holds none of
/// `allowed`; `Ok` where there is none.
pub open spec fn first_unmet(bytes: Seq<u8>, indices: Seq<usize>, allowed: Seq<u8>) -> Result<(), usize>
    decreases indices.len(),
{
    if indices.len() == 0 {
        Ok(())
    } else if !allowed.contains(bytes[indices[0] as int]) {
        Err(indices[0])
    } else {
        first_unmet(bytes, indices.drop_first(), allowed)
    }
}

/// Whether every one of `indices` is a position within `bytes`.
pub open spec fn all_in_bounds(bytes: Seq<u8>, indices: Seq<usize>) -> bool {
    forall|k: int| 0 <= k < indices.len() ==> #[trigger] indices[k] < bytes.len()
}

/// The first of `indices`, in their order, whose exponent sign is refused:
/// neither '+' nor '-', and not a blank followed by a blank. `Ok` where there
/// is none.
pub open spec fn first_bad_exponent_sign(bytes: Seq<u8>, indices: Seq<usize>) -> Result<(), TleError>
    decreases indices.len(),
{
    if indices.len() == 0 {
        Ok(())
    } else {
        let i = indices[0];
        if bytes[i as int] == (' ' as u8) {
            if bytes[i + 1] != (' ' as u8) {
                Err(TleError::ExpectedConsecutiveSpaces { column: (i + 1) as usize })
            } else {
                first_bad_exponent_sign(bytes, indices.drop_first())
            }
        } else if bytes[i as int] == ('+' as u8) || bytes[i as int] == ('-' as u8) {
            first_bad_exponent_sign(bytes, indices.drop_first())
        } else {
            Err(TleError::ExpectedExponentSign { column: (i + 1) as usize })
        }
    }
}

/// Whether the line starts with its line number `n` followed by a space.
pub open spec fn starts_with_line_number(b: Seq<u8>, n: u8) -> bool {
    b.len() >= 2 && b[0] == n && b[1] == (' ' as u8)
}

/// The outcome of validating the bytes of line 1. The checks come in this
/// order, and the first that fails gives the error: the length, the leading
/// "1 ", the spaces, the dots, the sign columns, the exponent signs, and the
/// checksum.
pub open spec fn line1_outcome(b: Seq<u8>) -> Result<(), TleError> {
    if b.len() < LINE1_LEN {
        Err(TleError::TooShort { line: 1 })
    } else if b.len() > LINE1_LEN {
        Err(TleError::TooLong { line: 1 })
    } else if !starts_with_line_number(b, '1' as u8) {
        Err(TleError::BadLineStart { line: 1 })
    } else {
        match first_unmet(b, LINE1_SPACE_INDICES@, seq![' ' as u8]) {
            Err(i) => Err(TleError::ExpectedSpace { line: 1, column: (i + 1) as usize }),
            Ok(()) => match first_unmet(b, LINE1_DOT_INDICES@, seq!['.' as u8]) {
                Err(i) => Err(TleError::ExpectedDot { line: 1, column: (i + 1) as usize }),
                Ok(()) => match first_unmet(b, LINE1_SIGN_OR_SPACE_INDICES@, sign_or_space()) {
                    Err(i) => Err(TleError::ExpectedSignOrSpace { column: (i + 1) as usize }),
                    Ok(()) => match first_bad_exponent_sign(b, LINE1_EXPONENT_INDICES@) {
                        Err(e) => Err(e),
                        Ok(()) => checksum_outcome(b),
                    },
                },
            },
        }
    }
}

/// The outcome of validating the bytes of line 2: the length, the leading
/// "2 ", the spaces, the dots, and the checksum, the first that fails giving
/// the error.
pub open spec fn line2_outcome(b: Seq<u8>) -> Result<(), TleError> {
    if b.len() < LINE2_LEN {
        Err(TleError::TooShort { line: 2 })
    } else if b.len() > LINE2_LEN {
        Err(TleError::TooLong { line: 2 })
    } else if !starts_with_line_number(b, '2' as u8) {
        Err(TleError::BadLineStart { line: 2 })
    } else {
        match first_unmet(b, LINE2_SPACE_INDICES@, seq![' ' as u8]) {
            Err(i) => Err(TleError::ExpectedSpace { line: 2, column: (i + 1) as usize }),
            Ok(()) => match first_unmet(b, LINE2_DOT_INDICES@, seq!['.' as u8]) {
                Err(i) => Err(TleError::ExpectedDot { line: 2, column: (i + 1) as usize }),
                Ok(()) => checksum_outcome(b),
            },
        }
    }
}

/// The outcome of validating both lines: line 1 first, then line 2.
pub open spec fn fmt_outcome(line1: Seq<u8>, line2: Seq<u8>) -> Result<(), TleError> {
    match line1_outcome(line1) {
        Err(e) => Err(e),
        Ok(()) => line2_outcome(line2),
    }
}

/// The bytes accepted in the sign columns of line 1.
pub open spec fn sign_or_space() -> Seq<u8> {
    seq![' ' as u8, '+' as u8, '-' as u8]
}

/// A line whose last byte is the checksum digit of the bytes before it
/// passes the checksum check, whatever those bytes are.
pub proof fn lemma_appended_checksum_accepted(s: Seq<u8>)
    ensures
        checksum_outcome(s.push((('0' as u8) + checksum(s)) as u8)) == Ok::<(), TleError>(()),
{
    let t = s.push((('0' as u8) + checksum(s)) as u8);
    assert(t.drop_last() =~= s);
}

/// What a byte adds to a line's checksum, spelled out: a digit its value,
/// '-' one, any other byte nothing.
pub open spec fn weight_of_byte(x: u8) -> int {
    if 48 <= x <= 57 {
        x - 48
    } else if x == 45 {
        1
    } else {
        0
    }
}

/// The checksum of no bytes is 0, and each byte appended adds its weight
/// modulo 10, however long the line is.
pub proof fn lemma_checksum_step(s: Seq<u8>, x: u8)
    ensures
        checksum(Seq::empty()) == 0,
        checksum(s.push(x)) == (checksum(s) + weight_of_byte(x)) % 10,
{
    let t = s.push(x);
    assert(t.drop_last() =~= s);
    assert(checksum_sum(t) == checksum_sum(s) + weight_of_byte(x));
    vstd::arithmetic::div_mod::lemma_add_mod_noop(checksum_sum(s) as int, weight_of_byte(x), 10);
    vstd::arithmetic::div_mod::lemma_small_mod(weight_of_byte(x) as nat, 10);
}

/// Whether a byte may stand in a sign column of line 1: ' ', '+' or '-'.
pub open spec fn sign_or_blank(x: u8) -> bool {
    x == 32 || x == 43 || x == 45
}

/// Whether the exponent sign at `i` is '+' or '-', or a blank followed by a blank.
pub open spec fn exponent_sign_ok(b: Seq<u8>, i: int) -> bool {
    b[i] == 43 || b[i] == 45 || (b[i] == 32 && b[i + 1] == 32)
}

/// Whether the last byte is a digit equal to the sum of the weights of the
/// bytes before it, modulo 10.
pub open spec fn checksum_digit_ok(b: Seq<u8>) -> bool {
    &&& b.len() >= 1
    &&& 48 <= b[b.len() - 1] <= 57
    &&& checksum_sum(b.take(b.len() - 1)) % 10 == b[b.len() - 1] - 48
}

/// A well-formed line 1, column by column: 69 bytes; "1 " first; blanks at
/// 8, 17, 32, 43, 52, 61 and 63; '.' at 23 and 34; ' ', '+' or '-' at 33
/// and 44; an exponent sign at 50 and at 59; and the checksum digit last.
pub open spec fn well_formed_line1(b: Seq<u8>) -> bool {
    &&& b.len() == 69
    &&& b[0] == 49 && b[1] == 32
    &&& b[8] == 32 && b[17] == 32 && b[32] == 32 && b[43] == 32
    &&& b[52] == 32 && b[61] == 32 && b[63] == 32
    &&& b[23] == 46 && b[34] == 46
    &&& sign_or_blank(b[33]) && sign_or_blank(b[44])
    &&& exponent_sign_ok(b, 50) && exponent_sign_ok(b, 59)
    &&& checksum_digit_ok(b)
}

/// A well-formed line 2, column by column: 69 bytes; "2 " first; blanks at
/// 7, 16, 25, 33, 42 and 51; '.' at 11, 20, 37, 46 and 54; and the checksum
/// digit last.
pub open spec fn well_formed_line2(b: Seq<u8>) -> bool {
    &&& b.len() == 69
    &&& b[0] == 50 && b[1] == 32
    &&& b[7] == 32 && b[16] == 32 && b[25] == 32 && b[33] == 32 && b[42] == 32 && b[51] == 32
    &&& b[11] == 46 && b[20] == 46 && b[37] == 46 && b[46] == 46 && b[54] == 46
    &&& checksum_digit_ok(b)
}

proof fn lemma_first_unmet_ok(bytes: Seq<u8>, indices: Seq<usize>, allowed: Seq<u8>)
    ensures
        (first_unmet(bytes, indices, allowed) is Ok) <==> (forall|k: int|
            0 <= k < indices.len() ==> allowed.contains(#[trigger] bytes[indices[k] as int])),
    decreases indices.len(),
{
    if indices.len() > 0 {
        lemma_first_unmet_ok(bytes, indices.drop_first(), allowed);
        if forall|k: int|
            0 <= k < indices.drop_first().len() ==> allowed.contains(
                #[trigger] bytes[indices.drop_first()[k] as int],
            ) {
            if allowed.contains(bytes[indices[0] as int]) {
                assert forall|k: int| 0 <= k < indices.len() implies allowed.contains(
                    #[trigger] bytes[indices[k] as int],
                ) by {
                    if k > 0 {
                        assert(indices[k] == indices.drop_first()[k - 1]);
                    }
                }
            }
        } else {
            let k = choose|k: int|
                0 <= k < indices.drop_first().len() && !allowed.contains(
                    #[trigger] bytes[indices.drop_first()[k] as int],
                );
            assert(indices[k + 1] == indices.drop_first()[k]);
            assert(!allowed.contains(bytes[indices[k + 1] as int]));
        }
    }
}

proof fn lemma_first_bad_exponent_sign_ok(bytes: Seq<u8>, indices: Seq<usize>)
    ensures
        (first_bad_exponent_sign(bytes, indices) is Ok) <==> (forall|k: int|
            0 <= k < indices.len() ==> exponent_sign_ok(bytes, #[trigger] indices[k] as int)),
    decreases indices.len(),
{
    if indices.len() > 0 {
        lemma_first_bad_exponent_sign_ok(bytes, indices.drop_first());
        if forall|k: int|
            0 <= k < indices.drop_first().len() ==> exponent_sign_ok(
                bytes,
                #[trigger] indices.drop_first()[k] as int,
            ) {
            if exponent_sign_ok(bytes, indices[0] as int) {
                assert forall|k: int| 0 <= k < indices.len() implies exponent_sign_ok(
                    bytes,
                    #[trigger] indices[k] as int,
                ) by {
                    if k > 0 {
                        assert(indices[k] == indices.drop_first()[k - 1]);
                    }
                }
            }
        } else {
            let k = choose|k: int|
                0 <= k < indices.drop_first().len() && !exponent_sign_ok(
                    bytes,
                    #[trigger] indices.drop_first()[k] as int,
                );
            assert(indices[k + 1] == indices.drop_first()[k]);
        }
    }
}

proof fn lemma_single_contains(c: u8, x: u8)
    ensures
        seq![c].contains(x) <==> x == c,
{
    if x == c {
        assert(seq![c][0] == x);
    }
}

proof fn lemma_sign_or_space_contains(x: u8)
    ensures
        sign_or_space().contains(x) <==> sign_or_blank(x),
{
    let s = sign_or_space();
    if x == 32 {
        assert(s[0] == x);
    } else if x == 43 {
        assert(s[1] == x);
    } else if x == 45 {
        assert(s[2] == x);
    }
}

proof fn lemma_checksum_outcome_ok(b: Seq<u8>)
    ensures
        (checksum_outcome(b) is Ok) <==> checksum_digit_ok(b),
{
    if b.len() >= 1 {
        assert(b.drop_last() =~= b.take(b.len() - 1));
    }
}

/// Line 1 passes validation exactly when it is well formed, column by column.
pub proof fn lemma_line1_valid_iff_well_formed(b: Seq<u8>)
    ensures
        (line1_outcome(b) is Ok) <==> well_formed_line1(b),
{
    let sp = LINE1_SPACE_INDICES@;
    let dt = LINE1_DOT_INDICES@;
    let sg = LINE1_SIGN_OR_SPACE_INDICES@;
    let ex = LINE1_EXPONENT_INDICES@;
    assert(sp =~= seq![8usize, 17, 32, 43, 52, 61, 63]);
    assert(dt =~= seq![23usize, 34]);
    assert(sg =~= seq![33usize, 44]);
    assert(ex =~= seq![50usize, 59]);
    lemma_checksum_outcome_ok(b);
    assert(('1' as u8) == 49u8 && (' ' as u8) == 32u8);
    if b.len() == 69 && b[0] == 49 && b[1] == 32 {
        lemma_first_unmet_ok(b, sp, seq![32u8]);
        lemma_first_unmet_ok(b, dt, seq![46u8]);
        lemma_first_unmet_ok(b, sg, sign_or_space());
        lemma_first_bad_exponent_sign_ok(b, ex);
        assert(seq![' ' as u8] =~= seq![32u8]);
        assert(seq!['.' as u8] =~= seq![46u8]);
        let spaces_ok = forall|k: int| 0 <= k < sp.len() ==> seq![32u8].contains(#[trigger] b[sp[k] as int]);
        let dots_ok = forall|k: int| 0 <= k < dt.len() ==> seq![46u8].contains(#[trigger] b[dt[k] as int]);
        let signs_ok = forall|k: int| 0 <= k < sg.len() ==> sign_or_space().contains(#[trigger] b[sg[k] as int]);
        let exps_ok = forall|k: int| 0 <= k < ex.len() ==> exponent_sign_ok(b, #[trigger] ex[k] as int);
        assert(spaces_ok <==> (b[8] == 32 && b[17] == 32 && b[32] == 32 && b[43] == 32 && b[52] == 32 && b[61] == 32 && b[63] == 32)) by {
            lemma_single_contains(32, b[8]);
            lemma_single_contains(32, b[17]);
            lemma_single_contains(32, b[32]);
            lemma_single_contains(32, b[43]);
            lemma_single_contains(32, b[52]);
            lemma_single_contains(32, b[61]);
            lemma_single_contains(32, b[63]);
            if b[8] == 32 && b[17] == 32 && b[32] == 32 && b[43] == 32 && b[52] == 32 && b[61] == 32 && b[63] == 32 {
                assert forall|k: int| 0 <= k < sp.len() implies seq![32u8].contains(#[trigger] b[sp[k] as int]) by {
                    lemma_single_contains(32, b[sp[k] as int]);
                }
            }
            if spaces_ok {
                assert(seq![32u8].contains(b[sp[0] as int]));
                assert(seq![32u8].contains(b[sp[1] as int]));
                assert(seq![32u8].contains(b[sp[2] as int]));
                assert(seq![32u8].contains(b[sp[3] as int]));
                assert(seq![32u8].contains(b[sp[4] as int]));
                assert(seq![32u8].contains(b[sp[5] as int]));
                assert(seq![32u8].contains(b[sp[6] as int]));
            }
        }
        assert(dots_ok <==> (b[23] == 46 && b[34] == 46)) by {
            lemma_single_contains(46, b[23]);
            lemma_single_contains(46, b[34]);
            if b[23] == 46 && b[34] == 46 {
                assert forall|k: int| 0 <= k < dt.len() implies seq![46u8].contains(#[trigger] b[dt[k] as int]) by {
                    lemma_single_contains(46, b[dt[k] as int]);
                }
            }
            if dots_ok {
                assert(seq![46u8].contains(b[dt[0] as int]));
                assert(seq![46u8].contains(b[dt[1] as int]));
            }
        }
        assert(signs_ok <==> (sign_or_blank(b[33]) && sign_or_blank(b[44]))) by {
            lemma_sign_or_space_contains(b[33]);
            lemma_sign_or_space_contains(b[44]);
            if sign_or_blank(b[33]) && sign_or_blank(b[44]) {
                assert forall|k: int| 0 <= k < sg.len() implies sign_or_space().contains(#[trigger] b[sg[k] as int]) by {
                    lemma_sign_or_space_contains(b[sg[k] as int]);
                }
            }
            if signs_ok {
                assert(sign_or_space().contains(b[sg[0] as int]));
                assert(sign_or_space().contains(b[sg[1] as int]));
            }
        }
        assert(exps_ok <==> (exponent_sign_ok(b, 50) && exponent_sign_ok(b, 59))) by {
            if exps_ok {
                assert(exponent_sign_ok(b, ex[0] as int));
                assert(exponent_sign_ok(b, ex[1] as int));
            }
        }
    }
}

/// Line 2 passes validation exactly when it is well formed, column by column.
pub proof fn lemma_line2_valid_iff_well_formed(b: Seq<u8>)
    ensures
        (line2_outcome(b) is Ok) <==> well_formed_line2(b),
{
    let sp = LINE2_SPACE_INDICES@;
    let dt = LINE2_DOT_INDICES@;
    assert(sp =~= seq![7usize, 16, 25, 33, 42, 51]);
    assert(dt =~= seq![11usize, 20, 37, 46, 54]);
    lemma_checksum_outcome_ok(b);
    assert(('2' as u8) == 50u8 && (' ' as u8) == 32u8);
    if b.len() == 69 && b[0] == 50 && b[1] == 32 {
        lemma_first_unmet_ok(b, sp, seq![32u8]);
        lemma_first_unmet_ok(b, dt, seq![46u8]);
        assert(seq![' ' as u8] =~= seq![32u8]);
        assert(seq!['.' as u8] =~= seq![46u8]);
        let spaces_ok = forall|k: int| 0 <= k < sp.len() ==> seq![32u8].contains(#[trigger] b[sp[k] as int]);
        let dots_ok = forall|k: int| 0 <= k < dt.len() ==> seq![46u8].contains(#[trigger] b[dt[k] as int]);
        assert(spaces_ok <==> (b[7] == 32 && b[16] == 32 && b[25] == 32 && b[33] == 32 && b[42] == 32 && b[51] == 32)) by {
            lemma_single_contains(32, b[7]);
            lemma_single_contains(32, b[16]);
            lemma_single_contains(32, b[25]);
            lemma_single_contains(32, b[33]);
            lemma_single_contains(32, b[42]);
            lemma_single_contains(32, b[51]);
            if b[7] == 32 && b[16] == 32 && b[25] == 32 && b[33] == 32 && b[42] == 32 && b[51] == 32 {
                assert forall|k: int| 0 <= k < sp.len() implies seq![32u8].contains(#[trigger] b[sp[k] as int]) by {
                    lemma_single_contains(32, b[sp[k] as int]);
                }
            }
            if spaces_ok {
                assert(seq![32u8].contains(b[sp[0] as int]));
                assert(seq![32u8].contains(b[sp[1] as int]));
                assert(seq![32u8].contains(b[sp[2] as int]));
                assert(seq![32u8].contains(b[sp[3] as int]));
                assert(seq![32u8].contains(b[sp[4] as int]));
                assert(seq![32u8].contains(b[sp[5] as int]));
            }
        }
        assert(dots_ok <==> (b[11] == 46 && b[20] == 46 && b[37] == 46 && b[46] == 46 && b[54] == 46)) by {
            lemma_single_contains(46, b[11]);
            lemma_single_contains(46, b[20]);
            lemma_single_contains(46, b[37]);
            lemma_single_contains(46, b[46]);
            lemma_single_contains(46, b[54]);
            if b[11] == 46 && b[20] == 46 && b[37] == 46 && b[46] == 46 && b[54] == 46 {
                assert forall|k: int| 0 <= k < dt.len() implies seq![46u8].contains(#[trigger] b[dt[k] as int]) by {
                    lemma_single_contains(46, b[dt[k] as int]);
                }
            }
            if dots_ok {
                assert(seq![46u8].contains(b[dt[0] as int]));
                assert(seq![46u8].contains(b[dt[1] as int]));
                assert(seq![46u8].contains(b[dt[2] as int]));
                assert(seq![46u8].contains(b[dt[3] as int]));
                assert(seq![46u8].contains(b[dt[4] as int]));
            }
        }
    }
}

fn checksum_of_prefix(bytes: &[u8], n: usize) -> (r: u8)
    requires
        n <= bytes@.len(),
    ensures
        r == checksum(bytes@.take(n as int)),
        r < 10,
{
    let mut acc: u8 = 0;
    let mut i: usize = 0;
    while i < n
        invariant
            i <= n <= bytes@.len(),
            acc < 10,
            acc == checksum_sum(bytes@.take(i as int)) % 10,
        decreases n - i,
    {
        let b = bytes[i];
        let w: u8 = if ('0' as u8) <= b && b <= ('9' as u8) {
            b - ('0' as u8)
        } else if b == ('-' as u8) {
            1
        } else {
            0
        };
        proof {
            let t = bytes@.take(i + 1);
            assert(t.drop_last() =~= bytes@.take(i as int));
            assert(checksum_sum(t) == checksum_sum(bytes@.take(i as int)) + checksum_weight(b));
            vstd::arithmetic::div_mod::lemma_add_mod_noop(
                checksum_sum(bytes@.take(i as int)) as int,
                w as int,
                10,
            );
            vstd::arithmetic::div_mod::lemma_small_mod(w as nat, 10);
        }
        acc = (acc + w) % 10;
        i = i + 1;
    }
    acc
}

impl Tle {
    /// Validates the layout and checksum of line 1.
    pub fn validate_line1(line: &str) -> (r: Result<(), TleError>)
        ensures
            r == line1_outcome(line.spec_bytes()),
            r is Ok <==> well_formed_line1(line.spec_bytes()),
    {
        proof {
            lemma_line1_valid_iff_well_formed(line.spec_bytes());
        }
        let b = line.as_bytes();
        if b.len() < LINE1_LEN {
            return Err(TleError::TooShort { line: 1 });
        }
        if b.len() > LINE1_LEN {
            return Err(TleError::TooLong { line: 1 });
        }
        if !(b[0] == '1' as u8 && b[1] == ' ' as u8) {
            return Err(TleError::BadLineStart { line: 1 });
        }
        let spaces: &[usize] = &LINE1_SPACE_INDICES;
        match Self::check_expected_char(b, spaces, ' ' as u8) {
            Err(idx) => return Err(TleError::ExpectedSpace { line: 1, column: idx + 1 }),
            Ok(()) => {},
        }
        let dots: &[usize] = &LINE1_DOT_INDICES;
        match Self::check_expected_char(b, dots, '.' as u8) {
            Err(idx) => return Err(TleError::ExpectedDot { line: 1, column: idx + 1 }),
            Ok(()) => {},
        }
        let signs: &[usize] = &LINE1_SIGN_OR_SPACE_INDICES;
        let allowed: [u8; 3] = [' ' as u8, '+' as u8, '-' as u8];
        let allowed_slice: &[u8] = &allowed;
        assert(allowed_slice@ =~= sign_or_space());
        match Self::check_any_char(b, signs, allowed_slice) {
            Err(idx) => return Err(TleError::ExpectedSignOrSpace { column: idx + 1 }),
            Ok(()) => {},
        }
        check_exponent_signs(b, &LINE1_EXPONENT_INDICES)?;
        Self::validate_checksum(b)
    }

    /// Validates the layout and checksum of line 2.
    pub fn validate_line2(line2: &str) -> (r: Result<(), TleError>)
        ensures
            r == line2_outcome(line2.spec_bytes()),
            r is Ok <==> well_formed_line2(line2.spec_bytes()),
    {
        proof {
            lemma_line2_valid_iff_well_formed(line2.spec_bytes());
        }
        let b = line2.as_bytes();
        if b.len() < LINE2_LEN {
            return Err(TleError::TooShort { line: 2 });
        }
        if b.len() > LINE2_LEN {
            return Err(TleError::TooLong { line: 2 });
        }
        if !(b[0] == '2' as u8 && b[1] == ' ' as u8) {
            return Err(TleError::BadLineStart { line: 2 });
        }
        let spaces: &[usize] = &LINE2_SPACE_INDICES;
        match Self::check_expected_char(b, spaces, ' ' as u8) {
            Err(idx) => return Err(TleError::ExpectedSpace { line: 2, column: idx + 1 }),
            Ok(()) => {},
        }
        let dots: &[usize] = &LINE2_DOT_INDICES;
        match Self::check_expected_char(b, dots, '.' as u8) {
            Err(idx) => return Err(TleError::ExpectedDot { line: 2, column: idx + 1 }),
            Ok(()) => {},
        }
        Self::validate_checksum(b)
    }

    /// Validates line 1, then line 2.
    pub fn validate_fmt(line1: &str, line2: &str) -> (r: Result<(), TleError>)
        ensures
            r == fmt_outcome(line1.spec_bytes(), line2.spec_bytes()),
            r is Ok <==> well_formed_line1(line1.spec_bytes()) && well_formed_line2(
                line2.spec_bytes(),
            ),
    {
        Self::validate_line1(line1)?;
        Self::validate_line2(line2)?;
        Ok(())
    }

    /// The checksum of a line's bytes: the sum of its digits, with each '-'
    /// counted as one and every other byte as zero, modulo 10.
    pub fn compute_checksum(bytes: &[u8]) -> (r: u8)
        ensures
            r == checksum(bytes@),
            r == checksum_sum(bytes@) % 10,
            r < 10,
    {
        let r = checksum_of_prefix(bytes, bytes.len());
        assert(bytes@.take(bytes@.len() as int) =~= bytes@);
        r
    }

    /// Checks that the last byte of a line is the checksum digit of the bytes before it.
    pub fn validate_checksum(bytes: &[u8]) -> (r: Result<(), TleError>)
        ensures
            r == checksum_outcome(bytes@),
            r is Ok <==> checksum_digit_ok(bytes@),
    {
        proof {
            lemma_checksum_outcome_ok(bytes@);
        }
        if bytes.len() == 0 {
            return Err(TleError::EmptyLine);
        }
        let last = bytes[bytes.len() - 1];
        if !(('0' as u8) <= last && last <= ('9' as u8)) {
            return Err(TleError::ChecksumNotDigit);
        }
        let expected = last - ('0' as u8);
        let actual = checksum_of_prefix(bytes, bytes.len() - 1);
        assert(bytes@.take(bytes@.len() - 1) =~= bytes@.drop_last());
        if actual != expected {
            return Err(TleError::ChecksumMismatch { expected, actual });
        }
        Ok(())
    }

    /// The first of `indices` at which `bytes` does not hold `expected`.
    pub fn check_expected_char(bytes: &[u8], indices: &[usize], expected: u8) -> (r: Result<(), usize>)
        requires
            all_in_bounds(bytes@, indices@),
        ensures
            r == first_unmet(bytes@, indices@, seq![expected]),
            r matches Err(i) ==> i < bytes@.len(),
    {
        let mut i: usize = 0;
        assert(indices@.skip(0) =~= indices@);
        while i < indices.len()
            invariant
                i <= indices@.len(),
                all_in_bounds(bytes@, indices@),
                first_unmet(bytes@, indices@, seq![expected])
                    == first_unmet(bytes@, indices@.skip(i as int), seq![expected]),
            decreases indices@.len() - i,
        {
            let idx = indices[i];
            let ghost rest = indices@.skip(i as int);
            assert(rest[0] == idx);
            assert(rest.drop_first() =~= indices@.skip(i + 1));
            if bytes[idx] != expected {
                assert(!seq![expected].contains(bytes@[idx as int])) by {
                    if seq![expected].contains(bytes@[idx as int]) {
                        let k = choose|k: int| 0 <= k < 1 && seq![expected][k] == bytes@[idx as int];
                        assert(seq![expected][k] == expected);
                    }
                }
                return Err(idx);
            }
            assert(seq![expected][0] == bytes@[idx as int]);
            i = i + 1;
        }
        assert(indices@.skip(i as int) =~= Seq::<usize>::empty());
        Ok(())
    }

    /// The first of `indices` at which `bytes` holds none of `expected_chars`.
    pub fn check_any_char(bytes: &[u8], indices: &[usize], expected_chars: &[u8]) -> (r: Result<(), usize>)
        requires
            all_in_bounds(bytes@, indices@),
        ensures
            r == first_unmet(bytes@, indices@, expected_chars@),
            r matches Err(i) ==> i < bytes@.len(),
    {
        let mut i: usize = 0;
        assert(indices@.skip(0) =~= indices@);
        while i < indices.len()
            invariant
                i <= indices@.len(),
                all_in_bounds(bytes@, indices@),
                first_unmet(bytes@, indices@, expected_chars@)
                    == first_unmet(bytes@, indices@.skip(i as int), expected_chars@),
            decreases indices@.len() - i,
        {
            let idx = indices[i];
            let ghost rest = indices@.skip(i as int);
            assert(rest[0] == idx);
            assert(rest.drop_first() =~= indices@.skip(i + 1));
            if !contains_byte(expected_chars, bytes[idx]) {
                return Err(idx);
            }
            i = i + 1;
        }
        assert(indices@.skip(i as int) =~= Seq::<usize>::empty());
        Ok(())
    }
}

/// The first of `indices` whose exponent sign is refused.
fn check_exponent_signs(bytes: &[u8], indices: &[usize]) -> (r: Result<(), TleError>)
    requires
        forall|k: int| 0 <= k < indices@.len() ==> #[trigger] indices@[k] + 1 < bytes@.len(),
    ensures
        r == first_bad_exponent_sign(bytes@, indices@),
{
    let mut i: usize = 0;
    assert(indices@.skip(0) =~= indices@);
    while i < indices.len()
        invariant
            i <= indices@.len(),
            forall|k: int| 0 <= k < indices@.len() ==> #[trigger] indices@[k] + 1 < bytes@.len(),
            first_bad_exponent_sign(bytes@, indices@) == first_bad_exponent_sign(
                bytes@,
                indices@.skip(i as int),
            ),
        decreases indices@.len() - i,
    {
        let idx = indices[i];
        let ghost rest = indices@.skip(i as int);
        assert(rest[0] == idx);
        assert(rest.drop_first() =~= indices@.skip(i + 1));
        if bytes[idx] == ' ' as u8 {
            if bytes[idx + 1] != ' ' as u8 {
                return Err(TleError::ExpectedConsecutiveSpaces { column: idx + 1 });
            }
        } else if !(bytes[idx] == '+' as u8 || bytes[idx] == '-' as u8) {
            return Err(TleError::ExpectedExponentSign { column: idx + 1 });
        }
        i = i + 1;
    }
    assert(indices@.skip(i as int) =~= Seq::<usize>::empty());
    Ok(())
}

/// Whether `b` occurs in `set`.
fn contains_byte(set: &[u8], b: u8) -> (r: bool)
    ensures
        r == set@.contains(b),
{
    let mut i: usize = 0;
    while i < set.len()
        invariant
            i <= set@.len(),
            forall|k: int| 0 <= k < i ==> set@[k] != b,
        decreases set@.len() - i,
    {
        if set[i] == b {
            assert(set@[i as int] == b);
            return true;
        }
        i = i + 1;
    }
    false
}

/// A Two-Line Element set: a satellite's name and the two lines of orbital
/// elements, each trimmed of surrounding whitespace.
#[derive(Debug)]
pub struct Tle {
    pub name: String,
    pub line1: String,
    pub line2: String,
}

impl View for Tle {
    type V = (Seq<char>, Seq<char>, Seq<char>);

    /// The name, line 1 and line 2.
    open spec fn view(&self) -> (Seq<char>, Seq<char>, Seq<char>) {
        (self.name@, self.line1@, self.line2@)
    }
}

/// What building a set from a name and two lines gives: the three trimmed,
/// where the trimmed lines pass validation; else the first validation error.
pub open spec fn tle_outcome(name: Seq<char>, line1: Seq<char>, line2: Seq<char>) -> Result<
    (Seq<char>, Seq<char>, Seq<char>),
    TleError,
> {
    let (n, a, b) = (trim_chars(name), trim_chars(line1), trim_chars(line2));
    match fmt_outcome(encode_utf8(a), encode_utf8(b)) {
        Ok(()) => Ok((n, a, b)),
        Err(e) => Err(e),
    }
}

/// The name given to a set read from text that holds no name line.
pub open spec fn unknown_name() -> Seq<char> {
    seq!['U', 'N', 'K', 'N', 'O', 'W', 'N']
}

/// What reading a set from text gives. The text's non-blank lines, trimmed,
/// are the name, line 1 and line 2 where there are three, and line 1 and
/// line 2 of a set named "UNKNOWN" where there are two; any other number of
/// them is refused.
pub open spec fn text_outcome(input: Seq<char>) -> Result<(Seq<char>, Seq<char>, Seq<char>), TleError> {
    let ls = nonblank_lines_of(input);
    if ls.len() == 3 {
        tle_outcome(ls[0], ls[1], ls[2])
    } else if ls.len() == 2 {
        tle_outcome(unknown_name(), ls[0], ls[1])
    } else {
        Err(TleError::WrongLineCount { count: ls.len() as usize })
    }
}

/// A result with the set in it taken by its view.
pub open spec fn outcome_of(r: Result<Tle, TleError>) -> Result<(Seq<char>, Seq<char>, Seq<char>), TleError> {
    match r {
        Ok(t) => Ok(t@),
        Err(e) => Err(e),
    }
}

/// A set is built from a name and two lines exactly when both trimmed lines
/// are well formed, and it then holds the three trimmed.
pub proof fn lemma_set_valid_iff_lines_well_formed(name: Seq<char>, line1: Seq<char>, line2: Seq<char>)
    ensures
        tle_outcome(name, line1, line2) is Ok <==> well_formed_line1(
            encode_utf8(trim_chars(line1)),
        ) && well_formed_line2(encode_utf8(trim_chars(line2))),
        tle_outcome(name, line1, line2) matches Ok(v) ==> v == (
            trim_chars(name),
            trim_chars(line1),
            trim_chars(line2),
        ),
{
    let a = encode_utf8(trim_chars(line1));
    let b = encode_utf8(trim_chars(line2));
    lemma_line1_valid_iff_well_formed(a);
    lemma_line2_valid_iff_well_formed(b);
}

/// Every set read from text has two well-formed lines.
pub proof fn lemma_read_set_lines_well_formed(input: Seq<char>)
    ensures
        text_outcome(input) matches Ok((n, a, b)) ==> well_formed_line1(encode_utf8(a))
            && well_formed_line2(encode_utf8(b)),
{
    let ls = nonblank_lines_of(input);
    if ls.len() == 3 {
        lemma_set_valid_iff_lines_well_formed(ls[0], ls[1], ls[2]);
    } else if ls.len() == 2 {
        lemma_set_valid_iff_lines_well_formed(unknown_name(), ls[0], ls[1]);
    }
}

/// The name and both lines, each free of line feeds and not blank, written
/// on three lines of text, read back as the set that `try_new` builds of them.
#[verifier::spinoff_prover]
pub proof fn lemma_three_lines_read_back(name: Seq<char>, line1: Seq<char>, line2: Seq<char>)
    requires
        !name.contains('\n'),
        !line1.contains('\n'),
        !line2.contains('\n'),
        trim_chars(name).len() > 0,
        trim_chars(line1).len() > 0,
        trim_chars(line2).len() > 0,
    ensures
        text_outcome(name + seq!['\n'] + line1 + seq!['\n'] + line2) == tle_outcome(
            name,
            line1,
            line2,
        ),
{
    let text = name + seq!['\n'] + line1 + seq!['\n'] + line2;
    lemma_split_newlines_of_joined(name, line1, line2);
    let pieces = seq![name, line1, line2];
    assert(pieces.drop_last() =~= seq![name, line1]);
    assert(seq![name, line1].drop_last() =~= seq![name]);
    assert(seq![name].drop_last() =~= Seq::<Seq<char>>::empty());
    let (n, a, b) = (trim_chars(name), trim_chars(line1), trim_chars(line2));
    assert(keep_nonblank(Seq::<Seq<char>>::empty()) =~= Seq::<Seq<char>>::empty());
    assert(seq![name].last() == name);
    assert(keep_nonblank(seq![name]) =~= seq![n]);
    assert(keep_nonblank(seq![name, line1]) =~= seq![n, a]);
    assert(keep_nonblank(pieces) =~= seq![n, a, b]);
    lemma_trim_idempotent(name);
    lemma_trim_idempotent(line1);
    lemma_trim_idempotent(line2);
}

/// Two lines, each free of line feeds and not blank, written on two lines of
/// text, read back as the set named "UNKNOWN" that `try_new` builds of them.
#[verifier::spinoff_prover]
pub proof fn lemma_two_lines_read_back(line1: Seq<char>, line2: Seq<char>)
    requires
        !line1.contains('\n'),
        !line2.contains('\n'),
        trim_chars(line1).len() > 0,
        trim_chars(line2).len() > 0,
    ensures
        text_outcome(line1 + seq!['\n'] + line2) == tle_outcome(unknown_name(), line1, line2),
{
    lemma_split_newlines_of_joined(line1, line2, Seq::empty());
    let pieces = seq![line1, line2];
    assert(pieces.drop_last() =~= seq![line1]);
    assert(seq![line1].drop_last() =~= Seq::<Seq<char>>::empty());
    let (a, b) = (trim_chars(line1), trim_chars(line2));
    assert(keep_nonblank(Seq::<Seq<char>>::empty()) =~= Seq::<Seq<char>>::empty());
    assert(seq![line1].last() == line1);
    assert(keep_nonblank(seq![line1]) =~= seq![a]);
    assert(keep_nonblank(pieces) =~= seq![a, b]);
    lemma_trim_idempotent(line1);
    lemma_trim_idempotent(line2);
}

/// A blank line (empty, or whitespace only) put anywhere in the text changes
/// nothing of what reading a set from it gives.
pub proof fn lemma_blank_line_ignored(lines: Seq<Seq<char>>, i: int, w: Seq<char>)
    requires
        lines.len() >= 1,
        no_line_feeds(lines),
        !w.contains('\n'),
        trim_chars(w).len() == 0,
        0 <= i <= lines.len(),
    ensures
        text_outcome(join_lines(lines.insert(i, w))) == text_outcome(join_lines(lines)),
{
    let ins = lines.insert(i, w);
    assert(no_line_feeds(ins)) by {
        assert forall|k: int| 0 <= k < ins.len() implies !(#[trigger] ins[k]).contains('\n') by {
            if k < i {
                assert(ins[k] == lines[k]);
            } else if k > i {
                assert(ins[k] == lines[k - 1]);
            }
        }
    }
    lemma_nonblank_lines_of_joined(lines);
    lemma_nonblank_lines_of_joined(ins);
    lemma_keep_nonblank_insert_blank(lines, i, w);
}

/// Whitespace other than line feeds added at the start or the end of any
/// line changes nothing of what reading a set from the text gives.
pub proof fn lemma_line_padding_ignored(lines: Seq<Seq<char>>, i: int, a: Seq<char>, b: Seq<char>)
    requires
        lines.len() >= 1,
        no_line_feeds(lines),
        all_white(a),
        all_white(b),
        !a.contains('\n'),
        !b.contains('\n'),
        0 <= i < lines.len(),
    ensures
        text_outcome(join_lines(lines.update(i, a + lines[i] + b))) == text_outcome(
            join_lines(lines),
        ),
{
    let upd = lines.update(i, a + lines[i] + b);
    assert(no_line_feeds(upd)) by {
        assert forall|k: int| 0 <= k < upd.len() implies !(#[trigger] upd[k]).contains('\n') by {
            if k == i {
                if upd[k].contains('\n') {
                    let j = choose|j: int| 0 <= j < upd[k].len() && upd[k][j] == '\n';
                    if j < a.len() {
                        assert(a[j] == '\n');
                    } else if j < a.len() + lines[i].len() {
                        assert(lines[i][j - a.len()] == '\n');
                    } else {
                        assert(b[j - a.len() - lines[i].len()] == '\n');
                    }
                }
            } else {
                assert(upd[k] == lines[k]);
            }
        }
    }
    lemma_nonblank_lines_of_joined(lines);
    lemma_nonblank_lines_of_joined(upd);
    lemma_keep_nonblank_pad(lines, i, a, b);
}

/// Text whose line endings are CRLF reads as the same set as with LF line
/// endings: a carriage return before every line feed changes nothing.
pub proof fn lemma_crlf_line_endings_ignored(lines: Seq<Seq<char>>)
    requires
        lines.len() >= 1,
        no_line_feeds(lines),
    ensures
        text_outcome(
            join_lines(
                lines.drop_last().map_values(|l: Seq<char>| l.push('\r')).push(lines.last()),
            ),
        ) == text_outcome(join_lines(lines)),
{
    let init = lines.drop_last();
    let crlf = init.map_values(|l: Seq<char>| l.push('\r')).push(lines.last());
    assert(no_line_feeds(crlf)) by {
        assert forall|k: int| 0 <= k < crlf.len() implies !(#[trigger] crlf[k]).contains('\n') by {
            if k < init.len() {
                assert(crlf[k] == lines[k].push('\r'));
                assert(!lines[k].contains('\n'));
                if crlf[k].contains('\n') {
                    let j = choose|j: int| 0 <= j < crlf[k].len() && crlf[k][j] == '\n';
                    assert(lines[k][j] == '\n');
                }
            } else {
                assert(crlf[k] == lines[lines.len() - 1]);
            }
        }
    }
    lemma_nonblank_lines_of_joined(lines);
    lemma_nonblank_lines_of_joined(crlf);
    lemma_keep_nonblank_crlf(init);
    assert(crlf.drop_last() =~= init.map_values(|l: Seq<char>| l.push('\r')));
    assert(lines.drop_last() =~= init);
}

impl Tle {
    /// Builds a set from a name and two lines, each trimmed of surrounding
    /// whitespace; the trimmed lines must pass `validate_fmt`.
    pub fn try_new(name: &str, line1: &str, line2: &str) -> (r: Result<Tle, TleError>)
        ensures
            outcome_of(r) == tle_outcome(name@, line1@, line2@),
            r is Ok <==> well_formed_line1(encode_utf8(trim_chars(line1@))) && well_formed_line2(
                encode_utf8(trim_chars(line2@)),
            ),
            r matches Ok(t) ==> t@ == (trim_chars(name@), trim_chars(line1@), trim_chars(line2@)),
    {
        proof {
            lemma_set_valid_iff_lines_well_formed(name@, line1@, line2@);
        }
        let name = trim(name);
        let line1 = trim(line1);
        let line2 = trim(line2);
        Self::validate_fmt(line1.as_str(), line2.as_str())?;
        Ok(Tle { name, line1, line2 })
    }

    /// Reads a set from text of two or three non-blank lines: with three, the
    /// first is the name; with two, the set is named "UNKNOWN".
    pub fn try_from_str(input: &str) -> (r: Result<Tle, TleError>)
        ensures
            outcome_of(r) == text_outcome(input@),
            r matches Ok(t) ==> well_formed_line1(encode_utf8(t.line1@)) && well_formed_line2(
                encode_utf8(t.line2@),
            ),
    {
        proof {
            lemma_read_set_lines_well_formed(input@);
        }
        let lines = nonblank_lines(input);
        assert(lines@.len() == nonblank_lines_of(input@).len());
        if lines.len() == 3 {
            assert(lines@[0]@ == nonblank_lines_of(input@)[0]);
            assert(lines@[1]@ == nonblank_lines_of(input@)[1]);
            assert(lines@[2]@ == nonblank_lines_of(input@)[2]);
            Self::try_new(lines[0].as_str(), lines[1].as_str(), lines[2].as_str())
        } else if lines.len() == 2 {
            assert(lines@[0]@ == nonblank_lines_of(input@)[0]);
            assert(lines@[1]@ == nonblank_lines_of(input@)[1]);
            let unknown = "UNKNOWN";
            proof {
                reveal_strlit("UNKNOWN");
            }
            assert(unknown@ =~= unknown_name());
            Self::try_new(unknown, lines[0].as_str(), lines[1].as_str())
        } else {
            Err(TleError::WrongLineCount { count: lines.len() })
        }
    }
}

impl<'a> TryFrom<&'a str> for Tle {
    type Error = TleError;

    /// Reads a set from text, as `Tle::try_from_str` does.
    fn try_from(value: &'a str) -> (r: Result<Tle, TleError>)
        ensures
            outcome_of(r) == text_outcome(value@),
    {
        Tle::try_from_str(value)
    }
}

/// A set holds strings, so no spec value stands for what `try_from` builds;
/// its contract is the `ensures` of `try_from` above, over views.
impl<'a> vstd::std_specs::convert::TryFromSpecImpl<&'a str> for Tle {
    open spec fn obeys_try_from_spec() -> bool {
        false
    }

    open spec fn try_from_spec(v: &'a str) -> Result<Tle, TleError> {
        vstd::pervasive::arbitrary()
    }
}


} // verus!
