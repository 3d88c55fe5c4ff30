//! Scalar values and their text codecs.
//!
//! A scalar is what an attribute value or a text node can hold: a boolean,
//! an unsigned or signed integer, a byte string, or one choice out of a
//! fixed table of literals (the string-enum mapping). Booleans accept
//! `1`/`0`/`true`/`false` case-insensitively and print as `1`/`0`.

use vstd::prelude::*;

use crate::bytes::bytes_eq;
use crate::bytes::lower_bytes;
use crate::bytes::to_lower;

verus! {

/// The kind of scalar a field holds. `Choice` carries the table of
/// literals; the value is an index into it.
pub enum ScalarKind {
    Bool,
    Uns,
    Sgn,
    Str,
    Choice(Vec<Vec<u8>>),
}

/// A scalar value.
pub enum Scalar {
    Bool(bool),
    Uns(u64),
    Sgn(i64),
    Str(Vec<u8>),
    Choice(usize),
}

/// Mathematical model of a scalar.
pub enum ScalarM {
    Bool(bool),
    Uns(u64),
    Sgn(i64),
    Str(Seq<u8>),
    Choice(int),
}

impl View for Scalar {
    type V = ScalarM;

    open spec fn view(&self) -> ScalarM {
        match self {
            Scalar::Bool(b) => ScalarM::Bool(*b),
            Scalar::Uns(n) => ScalarM::Uns(*n),
            Scalar::Sgn(n) => ScalarM::Sgn(*n),
            Scalar::Str(s) => ScalarM::Str(s@),
            Scalar::Choice(i) => ScalarM::Choice(*i as int),
        }
    }
}

impl Clone for Scalar {
    fn clone(&self) -> (r: Self)
        ensures
            r@ == self@,
    {
        match self {
            Scalar::Bool(b) => Scalar::Bool(*b),
            Scalar::Uns(n) => Scalar::Uns(*n),
            Scalar::Sgn(n) => Scalar::Sgn(*n),
            Scalar::Str(s) => Scalar::Str(crate::events::clone_bytes(s)),
            Scalar::Choice(i) => Scalar::Choice(*i),
        }
    }
}

/// Model of a choice table.
pub open spec fn table_model(t: Seq<Vec<u8>>) -> Seq<Seq<u8>> {
    t.map_values(|v: Vec<u8>| v@)
}

/// A scalar value is of the given kind (and, for a choice, in range).
pub open spec fn scalar_fits(k: ScalarKind, m: ScalarM) -> bool {
    match (k, m) {
        (ScalarKind::Bool, ScalarM::Bool(_)) => true,
        (ScalarKind::Uns, ScalarM::Uns(_)) => true,
        (ScalarKind::Sgn, ScalarM::Sgn(_)) => true,
        (ScalarKind::Str, ScalarM::Str(_)) => true,
        (ScalarKind::Choice(t), ScalarM::Choice(i)) => 0 <= i < t@.len(),
        _ => false,
    }
}

/// Decimal digits of `n`, most significant first.
pub open spec fn dec_digits(n: nat) -> Seq<u8>
    decreases n,
{
    if n < 10 {
        seq![(48 + n) as u8]
    } else {
        dec_digits(n / 10).push((48 + n % 10) as u8)
    }
}

/// Every byte is an ASCII digit.
pub open spec fn all_digits(s: Seq<u8>) -> bool {
    forall|i: int| 0 <= i < s.len() ==> 48 <= #[trigger] s[i] <= 57
}

/// The number a digit string denotes.
pub open spec fn dec_val(s: Seq<u8>) -> nat
    decreases s.len(),
{
    if s.len() == 0 {
        0
    } else {
        dec_val(s.drop_last()) * 10 + (if s.last() >= 48 {
            (s.last() - 48) as nat
        } else {
            0
        })
    }
}

/// The text a scalar prints as. For a choice out of range this is the
/// empty string; `scalar_fits` rules that out for real values.
pub open spec fn scalar_print(k: ScalarKind, m: ScalarM) -> Seq<u8> {
    match m {
        ScalarM::Bool(b) => if b {
            seq![49u8]
        } else {
            seq![48u8]
        },
        ScalarM::Uns(n) => dec_digits(n as nat),
        ScalarM::Sgn(n) => if n < 0 {
            seq![45u8] + dec_digits((-(n as int)) as nat)
        } else {
            dec_digits(n as nat)
        },
        ScalarM::Str(s) => s,
        ScalarM::Choice(i) => {
            match k {
                ScalarKind::Choice(t) => if 0 <= i < t@.len() {
                    table_model(t@)[i]
                } else {
                    Seq::empty()
                },
                _ => Seq::empty(),
            }
        },
    }
}

/// The scalar a text parses as under the given kind, or `None` when the
/// codec rejects it.
pub open spec fn scalar_parse(k: ScalarKind, s: Seq<u8>) -> Option<ScalarM> {
    match k {
        ScalarKind::Bool => {
            let l = lower_bytes(s);
            if l == seq![49u8] || l == seq![116u8, 114u8, 117u8, 101u8] {
                Some(ScalarM::Bool(true))
            } else if l == seq![48u8] || l == seq![102u8, 97u8, 108u8, 115u8, 101u8] {
                Some(ScalarM::Bool(false))
            } else {
                None
            }
        },
        ScalarKind::Uns => if s.len() > 0 && all_digits(s) && dec_val(s) <= u64::MAX {
            Some(ScalarM::Uns(dec_val(s) as u64))
        } else {
            None
        },
        ScalarKind::Sgn => {
            if s.len() > 0 && s[0] == 45 {
                let d = s.subrange(1, s.len() as int);
                if d.len() > 0 && all_digits(d) && dec_val(d) <= 0x8000_0000_0000_0000 {
                    Some(ScalarM::Sgn((-(dec_val(d) as int)) as i64))
                } else {
                    None
                }
            } else {
                if s.len() > 0 && all_digits(s) && dec_val(s) <= i64::MAX {
                    Some(ScalarM::Sgn(dec_val(s) as i64))
                } else {
                    None
                }
            }
        },
        ScalarKind::Str => Some(ScalarM::Str(s)),
        ScalarKind::Choice(t) => {
            let tm = table_model(t@);
            if exists|i: int| 0 <= i < tm.len() && tm[i] == s {
                Some(ScalarM::Choice(first_match(tm, s)))
            } else {
                None
            }
        },
    }
}

/// Index of the first entry of `tm` equal to `s` (declaration order wins).
pub open spec fn first_match(tm: Seq<Seq<u8>>, s: Seq<u8>) -> int
    decreases tm.len(),
{
    if tm.len() == 0 {
        0
    } else if tm[0] == s {
        0
    } else {
        1 + first_match(tm.drop_first(), s)
    }
}

proof fn lemma_first_match_found(tm: Seq<Seq<u8>>, s: Seq<u8>)
    requires
        exists|i: int| 0 <= i < tm.len() && tm[i] == s,
    ensures
        0 <= first_match(tm, s) < tm.len(),
        tm[first_match(tm, s)] == s,
        forall|j: int| 0 <= j < first_match(tm, s) ==> tm[j] != s,
    decreases tm.len(),
{
    if tm.len() > 0 && tm[0] != s {
        let sub = tm.drop_first();
        assert forall|i: int| 0 <= i < tm.len() && tm[i] == s implies 1 <= i by {}
        let w = choose|i: int| 0 <= i < tm.len() && tm[i] == s;
        assert(sub[w - 1] == s);
        lemma_first_match_found(sub, s);
        assert forall|j: int| 0 <= j < first_match(tm, s) implies tm[j] != s by {
            if j > 0 {
                assert(sub[j - 1] != s);
            }
        }
    }
}

/// Extending a digit string cannot shrink its value.
proof fn lemma_dec_val_prefix(s: Seq<u8>, i: int)
    requires
        0 <= i <= s.len(),
    ensures
        dec_val(s.subrange(0, i)) <= dec_val(s),
    decreases s.len() - i,
{
    if i < s.len() {
        let t = s.subrange(0, i + 1);
        assert(t.drop_last() =~= s.subrange(0, i));
        assert(dec_val(s.subrange(0, i)) <= dec_val(t));
        lemma_dec_val_prefix(s, i + 1);
        assert(s.subrange(0, s.len() as int) =~= s);
    } else {
        assert(s.subrange(0, i) =~= s);
    }
}

/// Printed digits read back as the number: `dec_val . dec_digits` is the
/// identity, and the digits really are digits.
pub proof fn lemma_dec_round_trip(n: nat)
    ensures
        dec_val(dec_digits(n)) == n,
        all_digits(dec_digits(n)),
        dec_digits(n).len() >= 1,
        dec_digits(n)[0] != 48 || n < 10,
    decreases n,
{
    if n < 10 {
        let d = dec_digits(n);
        assert(d.drop_last() =~= Seq::<u8>::empty());
        assert(dec_val(d) == dec_val(Seq::<u8>::empty()) * 10 + (d.last() - 48));
    } else {
        lemma_dec_round_trip(n / 10);
        let d = dec_digits(n / 10);
        let w = d.push((48 + n % 10) as u8);
        assert(w.drop_last() =~= d);
        assert(dec_val(w) == dec_val(d) * 10 + n % 10);
        assert(dec_digits(n)[0] == d[0]);
    }
}

/// Print a `u64` in decimal.
pub fn print_u64(n: u64) -> (r: Vec<u8>)
    ensures
        r@ == dec_digits(n as nat),
    decreases n,
{
    if n < 10 {
        let mut out: Vec<u8> = Vec::new();
        out.push(48 + (n as u8));
        proof {
            assert(out@ =~= dec_digits(n as nat));
        }
        out
    } else {
        let mut out = print_u64(n / 10);
        out.push(48 + ((n % 10) as u8));
        out
    }
}

/// Parse a `u64` from decimal digits; rejects empty input, non-digits and
/// overflow, exactly as `scalar_parse` with kind `Uns` says.
pub fn parse_u64(s: &[u8]) -> (r: Option<u64>)
    ensures
        match r {
            Some(n) => s@.len() > 0 && all_digits(s@) && dec_val(s@) == n,
            None => !(s@.len() > 0 && all_digits(s@) && dec_val(s@) <= u64::MAX),
        },
{
    if s.len() == 0 {
        return None;
    }
    let mut acc: u64 = 0;
    let mut i: usize = 0;
    while i < s.len()
        invariant
            0 <= i <= s.len(),
            all_digits(s@.subrange(0, i as int)),
            acc == dec_val(s@.subrange(0, i as int)),
        decreases s.len() - i,
    {
        let b = s[i];
        if !(48 <= b && b <= 57) {
            assert(!all_digits(s@));
            return None;
        }
        let d = (b - 48) as u64;
        if acc > (u64::MAX - d) / 10 {
            proof {
                let t = s@.subrange(0, i + 1);
                assert(t.drop_last() =~= s@.subrange(0, i as int));
                assert(dec_val(t) == acc * 10 + d);
                lemma_dec_val_prefix(s@, i + 1);
            }
            return None;
        }
        proof {
            let t = s@.subrange(0, i + 1);
            assert(t.drop_last() =~= s@.subrange(0, i as int));
            assert(dec_val(t) == acc * 10 + d);
        }
        acc = acc * 10 + d;
        i += 1;
    }
    proof {
        assert(s@.subrange(0, s@.len() as int) =~= s@);
    }
    Some(acc)
}

/// Print a scalar of the given kind.
pub fn print_scalar(k: &ScalarKind, v: &Scalar) -> (r: Vec<u8>)
    requires
        scalar_fits(*k, v@),
    ensures
        r@ == scalar_print(*k, v@),
{
    match v {
        Scalar::Bool(b) => {
            let mut out: Vec<u8> = Vec::new();
            if *b {
                out.push(49);
            } else {
                out.push(48);
            }
            proof {
                assert(out@ =~= scalar_print(*k, v@));
            }
            out
        },
        Scalar::Uns(n) => print_u64(*n),
        Scalar::Sgn(n) => {
            if *n < 0 {
                let mut out: Vec<u8> = Vec::new();
                out.push(45);
                let mag: u64 = if *n == i64::MIN {
                    0x8000_0000_0000_0000u64
                } else {
                    (-*n) as u64
                };
                let digits = print_u64(mag);
                let mut j: usize = 0;
                while j < digits.len()
                    invariant
                        0 <= j <= digits.len(),
                        out@ == seq![45u8] + digits@.subrange(0, j as int),
                    decreases digits.len() - j,
                {
                    out.push(digits[j]);
                    proof {
                        assert(seq![45u8] + digits@.subrange(0, j + 1 as int) =~= (seq![45u8]
                            + digits@.subrange(0, j as int)).push(digits@[j as int]));
                    }
                    j += 1;
                }
                proof {
                    assert(digits@.subrange(0, digits@.len() as int) =~= digits@);
                    assert(out@ =~= scalar_print(*k, v@));
                }
                out
            } else {
                print_u64(*n as u64)
            }
        },
        Scalar::Str(s) => crate::events::clone_bytes(s),
        Scalar::Choice(i) => {
            match k {
                ScalarKind::Choice(t) => {
                    proof {
                        assert(table_model(t@)[*i as int] == t@[*i as int]@);
                    }
                    crate::events::clone_bytes(&t[*i])
                },
                _ => {
                    proof {
                        assert(false);
                    }
                    Vec::new()
                },
            }
        },
    }
}

/// Parse a scalar of the given kind from text.
pub fn parse_scalar(k: &ScalarKind, s: &[u8]) -> (r: Option<Scalar>)
    ensures
        match r {
            Some(v) => scalar_parse(*k, s@) == Some(v@),
            None => scalar_parse(*k, s@) is None,
        },
{
    match k {
        ScalarKind::Bool => {
            let l = to_lower(s);
            if (l.len() == 1 && l[0] == 49) || (l.len() == 4 && l[0] == 116 && l[1] == 114 && l[2]
                == 117 && l[3] == 101) {
                proof {
                    if l@.len() == 1 {
                        assert(l@ =~= seq![49u8]);
                    } else {
                        assert(l@ =~= seq![116u8, 114u8, 117u8, 101u8]);
                    }
                }
                Some(Scalar::Bool(true))
            } else if (l.len() == 1 && l[0] == 48) || (l.len() == 5 && l[0] == 102 && l[1] == 97
                && l[2] == 108 && l[3] == 115 && l[4] == 101) {
                proof {
                    if l@.len() == 1 {
                        assert(l@ =~= seq![48u8]);
                    } else {
                        assert(l@ =~= seq![102u8, 97u8, 108u8, 115u8, 101u8]);
                    }
                }
                Some(Scalar::Bool(false))
            } else {
                proof {
                    assert(l@ != seq![49u8] && l@ != seq![116u8, 114u8, 117u8, 101u8] && l@
                        != seq![48u8] && l@ != seq![102u8, 97u8, 108u8, 115u8, 101u8]) by {
                        if l@ =~= seq![49u8] {
                            assert(l@.len() == 1 && l@[0] == 49);
                        }
                        if l@ =~= seq![116u8, 114u8, 117u8, 101u8] {
                            assert(l@.len() == 4 && l@[0] == 116 && l@[1] == 114 && l@[2] == 117
                                && l@[3] == 101);
                        }
                        if l@ =~= seq![48u8] {
                            assert(l@.len() == 1 && l@[0] == 48);
                        }
                        if l@ =~= seq![102u8, 97u8, 108u8, 115u8, 101u8] {
                            assert(l@.len() == 5 && l@[0] == 102 && l@[1] == 97 && l@[2] == 108
                                && l@[3] == 115 && l@[4] == 101);
                        }
                    }
                }
                None
            }
        },
        ScalarKind::Uns => {
            match parse_u64(s) {
                Some(n) => Some(Scalar::Uns(n)),
                None => None,
            }
        },
        ScalarKind::Sgn => {
            if s.len() > 0 && s[0] == 45 {
                let d = vstd::slice::slice_subrange(s, 1, s.len());
                match parse_u64(d) {
                    Some(mag) => {
                        if mag <= 0x8000_0000_0000_0000u64 {
                            let val: i64 = if mag == 0x8000_0000_0000_0000u64 {
                                i64::MIN
                            } else {
                                -(mag as i64)
                            };
                            Some(Scalar::Sgn(val))
                        } else {
                            None
                        }
                    },
                    None => None,
                }
            } else {
                match parse_u64(s) {
                    Some(n) => {
                        if n <= i64::MAX as u64 {
                            Some(Scalar::Sgn(n as i64))
                        } else {
                            None
                        }
                    },
                    None => None,
                }
            }
        },
        ScalarKind::Str => Some(Scalar::Str(crate::events::slice_to_bytes(s))),
        ScalarKind::Choice(t) => {
            let mut i: usize = 0;
            while i < t.len()
                invariant
                    0 <= i <= t.len(),
                    forall|j: int| 0 <= j < i ==> table_model(t@)[j] != s@,
                decreases t.len() - i,
            {
                if bytes_eq(t[i].as_slice(), s) {
                    proof {
                        let tm = table_model(t@);
                        assert(tm[i as int] == t@[i as int]@);
                        assert(tm[i as int] == s@);
                        assert(exists|j: int| 0 <= j < tm.len() && tm[j] == s@);
                        lemma_first_match_found(tm, s@);
                        assert(first_match(tm, s@) == i as int);
                        assert(*k == ScalarKind::Choice(*t));
                        assert(scalar_parse(*k, s@) == Some(ScalarM::Choice(i as int)));
                    }
                    return Some(Scalar::Choice(i));
                }
                proof {
                    assert(table_model(t@)[i as int] == t@[i as int]@);
                }
                i += 1;
            }
            None
        },
    }
}

/// The pluggable scalar codec: how a primitive value travels as text.
/// Booleans accept `1`/`0`/`true`/`false` case-insensitively and always
/// print as `1`/`0`; integers print in decimal; text passes through.
pub trait XmlValue: Sized {
    /// The text this value prints as.
    spec fn sp_print(&self) -> Seq<u8>;

    /// Whether the codec accepts the text at all.
    spec fn sp_accepts(b: Seq<u8>) -> bool;

    /// Whether `v` is the value the text denotes.
    spec fn sp_parsed(b: Seq<u8>, v: &Self) -> bool;

    /// Print the value as text.
    fn serialize(&self) -> (r: Vec<u8>)
        ensures
            r@ == self.sp_print(),
    ;

    /// Parse a value from text; the error is a short description.
    fn deserialize(b: &[u8]) -> (r: Result<Self, String>)
        ensures
            match r {
                Ok(v) => Self::sp_accepts(b@) && Self::sp_parsed(b@, &v),
                Err(_) => !Self::sp_accepts(b@),
            },
    ;
}

impl XmlValue for bool {
    open spec fn sp_print(&self) -> Seq<u8> {
        scalar_print(ScalarKind::Bool, ScalarM::Bool(*self))
    }

    open spec fn sp_accepts(b: Seq<u8>) -> bool {
        scalar_parse(ScalarKind::Bool, b) is Some
    }

    open spec fn sp_parsed(b: Seq<u8>, v: &bool) -> bool {
        scalar_parse(ScalarKind::Bool, b) == Some(ScalarM::Bool(*v))
    }

    fn serialize(&self) -> (r: Vec<u8>) {
        print_scalar(&ScalarKind::Bool, &Scalar::Bool(*self))
    }

    fn deserialize(b: &[u8]) -> (r: Result<bool, String>) {
        match parse_scalar(&ScalarKind::Bool, b) {
            Some(Scalar::Bool(v)) => Ok(v),
            _ => Err(String::from_str("not a boolean")),
        }
    }
}

impl XmlValue for u64 {
    open spec fn sp_print(&self) -> Seq<u8> {
        scalar_print(ScalarKind::Uns, ScalarM::Uns(*self))
    }

    open spec fn sp_accepts(b: Seq<u8>) -> bool {
        scalar_parse(ScalarKind::Uns, b) is Some
    }

    open spec fn sp_parsed(b: Seq<u8>, v: &u64) -> bool {
        scalar_parse(ScalarKind::Uns, b) == Some(ScalarM::Uns(*v))
    }

    fn serialize(&self) -> (r: Vec<u8>) {
        print_scalar(&ScalarKind::Uns, &Scalar::Uns(*self))
    }

    fn deserialize(b: &[u8]) -> (r: Result<u64, String>) {
        match parse_scalar(&ScalarKind::Uns, b) {
            Some(Scalar::Uns(v)) => Ok(v),
            _ => Err(String::from_str("not an unsigned integer")),
        }
    }
}

impl XmlValue for i64 {
    open spec fn sp_print(&self) -> Seq<u8> {
        scalar_print(ScalarKind::Sgn, ScalarM::Sgn(*self))
    }

    open spec fn sp_accepts(b: Seq<u8>) -> bool {
        scalar_parse(ScalarKind::Sgn, b) is Some
    }

    open spec fn sp_parsed(b: Seq<u8>, v: &i64) -> bool {
        scalar_parse(ScalarKind::Sgn, b) == Some(ScalarM::Sgn(*v))
    }

    fn serialize(&self) -> (r: Vec<u8>) {
        print_scalar(&ScalarKind::Sgn, &Scalar::Sgn(*self))
    }

    fn deserialize(b: &[u8]) -> (r: Result<i64, String>) {
        match parse_scalar(&ScalarKind::Sgn, b) {
            Some(Scalar::Sgn(v)) => Ok(v),
            _ => Err(String::from_str("not a signed integer")),
        }
    }
}

impl XmlValue for Vec<u8> {
    open spec fn sp_print(&self) -> Seq<u8> {
        self@
    }

    open spec fn sp_accepts(b: Seq<u8>) -> bool {
        true
    }

    open spec fn sp_parsed(b: Seq<u8>, v: &Vec<u8>) -> bool {
        v@ == b
    }

    fn serialize(&self) -> (r: Vec<u8>) {
        crate::events::clone_bytes(self)
    }

    fn deserialize(b: &[u8]) -> (r: Result<Vec<u8>, String>) {
        Ok(crate::events::slice_to_bytes(b))
    }
}

/// A parsed scalar fits the kind it was parsed under.
pub proof fn lemma_scalar_parse_fits(k: ScalarKind, s: Seq<u8>)
    ensures
        scalar_parse(k, s) matches Some(sm) ==> scalar_fits(k, sm),
{
    match k {
        ScalarKind::Choice(t) => {
            let tm = table_model(t@);
            if exists|i: int| 0 <= i < tm.len() && tm[i] == s {
                lemma_first_match_found(tm, s);
            }
        },
        _ => {},
    }
}

/// What a scalar prints as always parses back to the same scalar, provided
/// a choice table has no entry repeated before the printed one. This is the
/// codec half of the fixed-shape round trip.
pub proof fn lemma_scalar_codec_round_trip(k: ScalarKind, m: ScalarM)
    requires
        scalar_fits(k, m),
        match (k, m) {
            (ScalarKind::Choice(t), ScalarM::Choice(i)) => forall|j: int|
                0 <= j < i ==> table_model(t@)[j] != table_model(t@)[i],
            _ => true,
        },
    ensures
        scalar_parse(k, scalar_print(k, m)) == Some(m),
{
    match m {
        ScalarM::Bool(b) => {
            if b {
                assert(lower_bytes(seq![49u8]) =~= seq![49u8]);
            } else {
                assert(lower_bytes(seq![48u8]) =~= seq![48u8]);
            }
            assert(seq![49u8].len() == 1 && seq![48u8].len() == 1);
            assert(seq![49u8][0] == 49 && seq![48u8][0] == 48);
            assert(seq![116u8, 114u8, 117u8, 101u8].len() == 4);
            assert(seq![102u8, 97u8, 108u8, 115u8, 101u8].len() == 5);
        },
        ScalarM::Uns(n) => {
            lemma_dec_round_trip(n as nat);
        },
        ScalarM::Sgn(n) => {
            if n < 0 {
                let mag = (-(n as int)) as nat;
                lemma_dec_round_trip(mag);
                let p = scalar_print(k, m);
                let d = dec_digits(mag);
                assert(p[0] == 45);
                assert(p.subrange(1, p.len() as int) =~= d);
                assert(mag <= 0x8000_0000_0000_0000);
            } else {
                lemma_dec_round_trip(n as nat);
                let p = scalar_print(k, m);
                assert(p.len() > 0 && p[0] != 45) by {
                    lemma_dec_round_trip(n as nat);
                }
            }
        },
        ScalarM::Str(_) => {},
        ScalarM::Choice(i) => {
            match k {
                ScalarKind::Choice(t) => {
                    let tm = table_model(t@);
                    assert(tm[i] == scalar_print(k, m));
                    lemma_first_match_found(tm, tm[i]);
                    let f = first_match(tm, tm[i]);
                    assert(f <= i);
                    assert(f == i) by {
                        if f < i {
                            assert(tm[f] != tm[i]);
                        }
                    }
                },
                _ => {},
            }
        },
    }
}

} // verus!
