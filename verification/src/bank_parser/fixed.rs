//! Fixed-point attribute values.
//!
//! A `fixed` attribute carries a decimal number.  Its canonical rendering
//! drops the sign of zero, leading zeros of the integer part and trailing
//! zeros of the fraction, and omits the decimal point when the fraction is
//! empty, so a whole number renders as a plain integer.  Text that is not a
//! plain decimal number (an optional sign, digits, at most one point, at
//! least one digit in all) renders as `"0"`.

use vstd::prelude::*;

verus! {

use vstd::string::StrSliceExecFns;
use vstd::string::StringExecFns;
use crate::strutil::all_dec_digits;
use crate::strutil::is_dec_digit;

/// A fixed-point attribute value, stored in canonical rendering.
#[derive(Debug, Clone)]
pub struct Fixed(pub String);

/// Length of the leading sign, if any.
pub open spec fn sign_len(s: Seq<char>) -> int {
    if s.len() > 0 && (s[0] == '+' || s[0] == '-') {
        1
    } else {
        0
    }
}

/// Whether the text denotes a negative number.
pub open spec fn is_negative(s: Seq<char>) -> bool {
    s.len() > 0 && s[0] == '-'
}

/// `d` is where the decimal point sits: the first `.` after the sign, or
/// the end of the text if there is none.
pub open spec fn is_dot_pos(s: Seq<char>, d: int) -> bool {
    &&& sign_len(s) <= d <= s.len()
    &&& d == s.len() || s[d] == '.'
    &&& forall|k: int| sign_len(s) <= k < d ==> s[k] != '.'
}

/// The integer-part digits, given the dot position.
pub open spec fn int_part(s: Seq<char>, d: int) -> Seq<char> {
    s.subrange(sign_len(s), d)
}

/// The fraction digits, given the dot position.
pub open spec fn frac_part(s: Seq<char>, d: int) -> Seq<char> {
    if d < s.len() {
        s.subrange(d + 1, s.len() as int)
    } else {
        Seq::empty()
    }
}

/// Whether the text is a plain decimal number.
pub open spec fn fixed_wf(s: Seq<char>) -> bool {
    exists|d: int|
        {
            &&& #[trigger] is_dot_pos(s, d)
            &&& all_dec_digits(int_part(s, d))
            &&& all_dec_digits(frac_part(s, d))
            &&& int_part(s, d).len() + frac_part(s, d).len() >= 1
        }
}

/// Drops leading `'0'` characters.
pub open spec fn strip_zeros_front(s: Seq<char>) -> Seq<char>
    decreases s.len(),
{
    if s.len() > 0 && s[0] == '0' {
        strip_zeros_front(s.drop_first())
    } else {
        s
    }
}

/// Drops trailing `'0'` characters.
pub open spec fn strip_zeros_back(s: Seq<char>) -> Seq<char>
    decreases s.len(),
{
    if s.len() > 0 && s.last() == '0' {
        strip_zeros_back(s.drop_last())
    } else {
        s
    }
}

/// The canonical rendering of the number with the given sign and digit
/// parts.
pub open spec fn render_parts(neg: bool, ip: Seq<char>, fp: Seq<char>) -> Seq<char> {
    let ic = strip_zeros_front(ip);
    let fc = strip_zeros_back(fp);
    let zero = ic.len() == 0 && fc.len() == 0;
    let sign: Seq<char> = if neg && !zero {
        seq!['-']
    } else {
        Seq::empty()
    };
    let whole: Seq<char> = if ic.len() == 0 {
        seq!['0']
    } else {
        ic
    };
    let frac: Seq<char> = if fc.len() > 0 {
        seq!['.'] + fc
    } else {
        Seq::empty()
    };
    sign + whole + frac
}

/// The canonical rendering of a `fixed` attribute's raw text.
pub open spec fn fixed_render(s: Seq<char>) -> Seq<char> {
    if !fixed_wf(s) {
        seq!['0']
    } else {
        let d = choose|d: int| #[trigger] is_dot_pos(s, d);
        render_parts(is_negative(s), int_part(s, d), frac_part(s, d))
    }
}

/// The dot position is unique, so `fixed_render` does not depend on which
/// witness is chosen.
pub proof fn lemma_dot_pos_unique(s: Seq<char>, d1: int, d2: int)
    requires
        is_dot_pos(s, d1),
        is_dot_pos(s, d2),
    ensures
        d1 == d2,
{
    if d1 < d2 {
        assert(s[d1] != '.');
    } else if d2 < d1 {
        assert(s[d2] != '.');
    }
}

/// Scanning to the first non-zero character computes `strip_zeros_front`.
proof fn lemma_strip_front_at(s: Seq<char>, k: int)
    requires
        0 <= k <= s.len(),
        forall|m: int| 0 <= m < k ==> s[m] == '0',
        k == s.len() || s[k] != '0',
    ensures
        strip_zeros_front(s) == s.skip(k),
    decreases k,
{
    if k == 0 {
        assert(s.skip(0) =~= s);
    } else {
        assert(s[0] == '0');
        lemma_strip_front_at(s.drop_first(), k - 1);
        assert(s.drop_first().skip(k - 1) =~= s.skip(k));
    }
}

/// Scanning back to the last non-zero character computes
/// `strip_zeros_back`.
proof fn lemma_strip_back_at(s: Seq<char>, k: int)
    requires
        0 <= k <= s.len(),
        forall|m: int| k <= m < s.len() ==> s[m] == '0',
        k == 0 || s[k - 1] != '0',
    ensures
        strip_zeros_back(s) == s.take(k),
    decreases s.len() - k,
{
    if k == s.len() {
        assert(s.take(k) =~= s);
        if s.len() > 0 {
            assert(s.last() != '0');
        }
    } else {
        assert(s.last() == '0');
        lemma_strip_back_at(s.drop_last(), k);
        assert(s.drop_last().take(k) =~= s.take(k));
    }
}

impl Fixed {
    /// Parses and canonically renders a `fixed` attribute's raw text.
    pub fn from_value_text(s: &str) -> (r: Fixed)
        ensures
            r.0@ == fixed_render(s@),
    {
        Fixed(fixed_normalize(s))
    }

    /// The canonical rendering this value was constructed with.
    pub fn value_string(&self) -> (r: String)
        ensures
            r@ == self.0@,
    {
        self.0.clone()
    }
}

/// Computes the canonical rendering of a `fixed` attribute's raw text, as
/// `fixed_render` describes it.
#[verifier::loop_isolation(false)]
#[verifier::rlimit(60)]
pub fn fixed_normalize(s: &str) -> (r: String)
    ensures
        r@ == fixed_render(s@),
{
    let len = s.unicode_len();
    let sign: usize = if len > 0 && {
        let c = s.get_char(0);
        c == '+' || c == '-'
    } {
        1
    } else {
        0
    };
    let negative = len > 0 && s.get_char(0) == '-';
    // Find the decimal point and check that everything else is a digit.
    let mut dot: usize = len;
    let mut i: usize = sign;
    while i < len
        invariant
            sign <= i <= len,
            sign <= dot <= len,
            dot == len || (dot < i && s@[dot as int] == '.'),
            forall|k: int| sign <= k < i && k != dot ==> is_dec_digit(s@[k]),
            forall|k: int| sign <= k < i && k < dot ==> s@[k] != '.',
        decreases len - i,
    {
        let c = s.get_char(i);
        let cu = c as u32;
        if c == '.' && dot == len {
            dot = i;
        } else if cu < 48 || cu > 57 {
            // Either a second point or a non-digit: not a plain decimal
            // number.
            proof {
                assert(!fixed_wf(s@)) by {
                    if fixed_wf(s@) {
                        let d = choose|d: int| #[trigger] is_dot_pos(s@, d);
                        if dot < len {
                            lemma_dot_pos_unique(s@, d, dot as int);
                            assert(frac_part(s@, d)[i - dot - 1] == s@[i as int]);
                        } else {
                            assert(d == len || s@[d] == '.');
                            if d < len {
                                if d < i {
                                    assert(s@[d] != '.');
                                } else {
                                    assert(int_part(s@, d)[i - sign] == s@[i as int]);
                                }
                            } else {
                                assert(int_part(s@, d)[i - sign] == s@[i as int]);
                            }
                        }
                    }
                }
                reveal_strlit("0");
            }
            let r = "0".to_owned();
            return r;
        }
        i = i + 1;
    }
    if len == sign || (dot == sign && dot + 1 == len) {
        // No digits at all.
        proof {
            assert(!fixed_wf(s@)) by {
                if fixed_wf(s@) {
                    let d = choose|d: int| #[trigger] is_dot_pos(s@, d);
                    if dot < len {
                        lemma_dot_pos_unique(s@, d, dot as int);
                    }
                }
            }
            reveal_strlit("0");
        }
        let r = "0".to_owned();
        return r;
    }
    proof {
        assert(is_dot_pos(s@, dot as int));
        assert(fixed_wf(s@)) by {
            assert(forall|k: int|
                0 <= k < int_part(s@, dot as int).len() ==> is_dec_digit(
                    #[trigger] int_part(s@, dot as int)[k],
                ));
            assert(forall|k: int|
                0 <= k < frac_part(s@, dot as int).len() ==> is_dec_digit(
                    #[trigger] frac_part(s@, dot as int)[k],
                ));
        }
        let d0 = choose|d: int| #[trigger] is_dot_pos(s@, d);
        lemma_dot_pos_unique(s@, d0, dot as int);
    }
    // Strip leading zeros of the integer part.
    let mut iz: usize = sign;
    while iz < dot && s.get_char(iz) == '0'
        invariant
            sign <= iz <= dot,
            forall|m: int| sign <= m < iz ==> s@[m] == '0',
        decreases dot - iz,
    {
        iz = iz + 1;
    }
    // Strip trailing zeros of the fraction.
    let mut fz: usize = len;
    if dot < len {
        while fz > dot + 1 && s.get_char(fz - 1) == '0'
            invariant
                dot + 1 <= fz <= len,
                forall|m: int| fz <= m < len ==> s@[m] == '0',
            decreases fz,
        {
            fz = fz - 1;
        }
    }
    proof {
        lemma_strip_front_at(int_part(s@, dot as int), iz - sign);
        assert(int_part(s@, dot as int).skip(iz - sign) =~= s@.subrange(iz as int, dot as int));
        if dot < len {
            lemma_strip_back_at(frac_part(s@, dot as int), fz - dot - 1);
            assert(frac_part(s@, dot as int).take(fz - dot - 1) =~= s@.subrange(
                dot + 1,
                fz as int,
            ));
        }
    }
    let mut out = String::new();
    let zero = iz == dot && (dot >= len || fz == dot + 1);
    if negative && !zero {
        proof {
            reveal_strlit("-");
        }
        out.append("-");
    }
    if iz == dot {
        proof {
            reveal_strlit("0");
        }
        out.append("0");
    } else {
        out.append(s.substring_char(iz, dot));
    }
    if dot < len && fz > dot + 1 {
        proof {
            reveal_strlit(".");
        }
        out.append(".");
        out.append(s.substring_char(dot + 1, fz));
    }
    proof {
        assert(out@ =~= fixed_render(s@));
    }
    out
}

} // verus!
