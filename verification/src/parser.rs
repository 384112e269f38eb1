//! The text command grammar: comma-separated fields.
//!
//! A cancel command is `id,cancel`. Any other command is
//! `id,user_id,<kind>,side,qty[,price]` with `<kind>` one of `market`,
//! `limit`, `ioc` and `fok`; the price field is read exactly when the kind
//! is not `market`, and fields beyond the grammar are ignored. The side
//! accepts the spellings `bid`, `BID`, `Bid`, `ask`, `ASK` and `Ask`.
//! Numeric fields are unsigned decimal 64-bit integers, plain digits only.
//!
//! The grammar is specified over the UTF-8 bytes of the input line, and the
//! parser is proved to decide it exactly, including which error each
//! malformed line yields.

use vstd::prelude::*;

use vstd::string::StringSliceAdditionalSpecFns;

use crate::models::{OrderParseError, OrderType, Side};

verus! {

/// The input split at every comma; the separators are not part of any field
/// and `n` commas always yield `n + 1` fields.
pub open spec fn split_fields(s: Seq<u8>) -> Seq<Seq<u8>>
    decreases s.len(),
{
    if s.len() == 0 {
        seq![Seq::<u8>::empty()]
    } else {
        let rest = split_fields(s.drop_first());
        if s[0] == 44 {
            seq![Seq::<u8>::empty()] + rest
        } else {
            seq![seq![s[0]] + rest[0]] + rest.drop_first()
        }
    }
}

/// Splitting yields at least one field.
pub proof fn lemma_split_fields_len(s: Seq<u8>)
    ensures
        split_fields(s).len() >= 1,
    decreases s.len(),
{
    if s.len() > 0 {
        lemma_split_fields_len(s.drop_first());
    }
}

/// Whether a field is a non-empty run of decimal digits.
pub open spec fn is_digits(f: Seq<u8>) -> bool {
    f.len() > 0 && (forall|i: int| 0 <= i < f.len() ==> 48 <= #[trigger] f[i] <= 57)
}

/// The value of a run of decimal digits, most significant first.
pub open spec fn digits_val(f: Seq<u8>) -> int
    decreases f.len(),
{
    if f.len() == 0 {
        0
    } else {
        digits_val(f.drop_last()) * 10 + (f.last() - 48)
    }
}

/// A numeric field denotes a value exactly when it is all digits and the
/// value fits in 64 bits.
pub open spec fn spec_parse_u64(f: Seq<u8>) -> Option<u64> {
    if is_digits(f) && digits_val(f) <= u64::MAX {
        Some(digits_val(f) as u64)
    } else {
        None
    }
}

/// The side denoted by a side field, if any.
pub open spec fn side_of(f: Seq<u8>) -> Option<Side> {
    if f == "bid".spec_bytes() || f == "BID".spec_bytes() || f == "Bid".spec_bytes() {
        Some(Side::Bid)
    } else if f == "ask".spec_bytes() || f == "ASK".spec_bytes() || f == "Ask".spec_bytes() {
        Some(Side::Ask)
    } else {
        None
    }
}

/// The command denoted by a list of fields, or the error describing the
/// first rule the list breaks: field count first, then the kind tag, then
/// the numeric and side fields in the order they appear in the grammar.
pub open spec fn parse_fields_spec(fields: Seq<Seq<u8>>) -> Result<OrderType, OrderParseError> {
    if fields.len() < 2 {
        Err(OrderParseError::InvalidFieldSize)
    } else if fields[1] == "cancel".spec_bytes() {
        match spec_parse_u64(fields[0]) {
            Some(id) => Ok(OrderType::Cancel { id }),
            None => Err(OrderParseError::InvalidInteger),
        }
    } else if fields.len() < 3 {
        Err(OrderParseError::InvalidFieldSize)
    } else if fields[2] == "market".spec_bytes() {
        if fields.len() < 5 {
            Err(OrderParseError::InvalidFieldSize)
        } else {
            match (spec_parse_u64(fields[0]), spec_parse_u64(fields[1])) {
                (Some(id), Some(user_id)) => match side_of(fields[3]) {
                    Some(side) => match spec_parse_u64(fields[4]) {
                        Some(qty) => Ok(OrderType::Market { id, user_id, side, qty }),
                        None => Err(OrderParseError::InvalidInteger),
                    },
                    None => Err(OrderParseError::InvalidSide),
                },
                _ => Err(OrderParseError::InvalidInteger),
            }
        }
    } else if fields[2] == "limit".spec_bytes() || fields[2] == "ioc".spec_bytes() || fields[2]
        == "fok".spec_bytes() {
        if fields.len() < 6 {
            Err(OrderParseError::InvalidFieldSize)
        } else {
            match (spec_parse_u64(fields[0]), spec_parse_u64(fields[1])) {
                (Some(id), Some(user_id)) => match side_of(fields[3]) {
                    Some(side) => match (spec_parse_u64(fields[4]), spec_parse_u64(fields[5])) {
                        (Some(qty), Some(price)) => if fields[2] == "limit".spec_bytes() {
                            Ok(OrderType::Limit { id, user_id, side, qty, price })
                        } else if fields[2] == "ioc".spec_bytes() {
                            Ok(OrderType::IOC { id, user_id, side, qty, price })
                        } else {
                            Ok(OrderType::FOK { id, user_id, side, qty, price })
                        },
                        _ => Err(OrderParseError::InvalidInteger),
                    },
                    None => Err(OrderParseError::InvalidSide),
                },
                _ => Err(OrderParseError::InvalidInteger),
            }
        }
    } else {
        Err(OrderParseError::InvalidOrderType)
    }
}

/// The command denoted by one text line, over its UTF-8 bytes.
pub open spec fn parse_order_spec(s: Seq<u8>) -> Result<OrderType, OrderParseError> {
    parse_fields_spec(split_fields(s))
}

/// The views of a list of byte fields.
pub open spec fn field_views(fields: Seq<Vec<u8>>) -> Seq<Seq<u8>> {
    Seq::new(fields.len(), |i: int| fields[i]@)
}

/// A prefix of a digit run is worth no more than the whole run.
proof fn lemma_digits_val_prefix(f: Seq<u8>, k: int)
    requires
        0 <= k <= f.len(),
        forall|i: int| 0 <= i < f.len() ==> 48 <= #[trigger] f[i] <= 57,
    ensures
        0 <= digits_val(f.take(k)) <= digits_val(f),
    decreases f.len() - k, f.len(),
{
    lemma_digits_val_nonneg(f.take(k));
    if k < f.len() {
        assert(f.take(k + 1).drop_last() =~= f.take(k));
        assert(f.take(k + 1).last() == f[k]);
        assert(digits_val(f.take(k + 1)) == digits_val(f.take(k)) * 10 + (f[k] - 48));
        lemma_digits_val_nonneg(f.take(k));
        lemma_digits_val_prefix(f, k + 1);
    } else {
        assert(f.take(k) =~= f);
    }
}

/// The value of a digit run is never negative.
proof fn lemma_digits_val_nonneg(f: Seq<u8>)
    ensures
        (forall|i: int| 0 <= i < f.len() ==> 48 <= #[trigger] f[i] <= 57) ==> digits_val(f) >= 0,
    decreases f.len(),
{
    if f.len() > 0 {
        lemma_digits_val_nonneg(f.drop_last());
        assert(forall|i: int|
            0 <= i < f.len() - 1 ==> f.drop_last()[i] == #[trigger] f[i]);
    }
}

/// Split one line into its comma-separated byte fields.
fn split_bytes(s: &[u8]) -> (r: Vec<Vec<u8>>)
    ensures
        field_views(r@) == split_fields(s@),
{
    let ghost total = split_fields(s@);
    let mut fields: Vec<Vec<u8>> = Vec::new();
    let mut cur: Vec<u8> = Vec::new();
    let mut pos: usize = 0;
    proof {
        assert(s@.skip(0) =~= s@);
        lemma_split_fields_len(s@);
    }
    while pos < s.len()
        invariant
            0 <= pos <= s@.len(),
            total == split_fields(s@),
            split_fields(s@.skip(pos as int)).len() >= 1,
            total =~= field_views(fields@) + seq![cur@ + split_fields(s@.skip(pos as int))[0]]
                + split_fields(s@.skip(pos as int)).drop_first(),
        decreases s@.len() - pos,
    {
        let ghost todo = split_fields(s@.skip(pos as int));
        proof {
            assert(s@.skip(pos as int)[0] == s@[pos as int]);
            assert(s@.skip(pos as int).drop_first() =~= s@.skip(pos as int + 1));
            lemma_split_fields_len(s@.skip(pos as int + 1));
        }
        let c = s[pos];
        if c == 44 {
            proof {
                let next = split_fields(s@.skip(pos as int + 1));
                assert(todo == seq![Seq::<u8>::empty()] + next);
                assert(todo[0] =~= Seq::<u8>::empty());
                assert(cur@ + todo[0] =~= cur@);
                assert(todo.drop_first() =~= next);
                assert(field_views(fields@.push(cur)) =~= field_views(fields@) + seq![cur@]);
                assert(seq![next[0]] + next.drop_first() =~= next);
                assert((field_views(fields@) + seq![cur@]) + (seq![
                    Seq::<u8>::empty() + next[0],
                ] + next.drop_first()) =~= field_views(fields@) + seq![cur@ + todo[0]]
                    + todo.drop_first());
                assert(Seq::<u8>::empty() + next[0] =~= next[0]);
            }
            fields.push(cur);
            cur = Vec::new();
        } else {
            proof {
                let next = split_fields(s@.skip(pos as int + 1));
                assert(todo == seq![seq![s@[pos as int]] + next[0]] + next.drop_first());
                assert(cur@.push(c) + next[0] =~= cur@ + todo[0]);
                assert(todo.drop_first() =~= next.drop_first());
            }
            cur.push(c);
        }
        pos += 1;
    }
    proof {
        assert(s@.skip(s@.len() as int) =~= Seq::<u8>::empty());
        assert(split_fields(Seq::<u8>::empty()) == seq![Seq::<u8>::empty()]);
        assert(cur@ + Seq::<u8>::empty() =~= cur@);
        assert(field_views(fields@.push(cur)) =~= field_views(fields@) + seq![cur@]);
        assert(split_fields(Seq::<u8>::empty()).drop_first() =~= Seq::<Seq<u8>>::empty());
        assert(field_views(fields@) + seq![cur@] + Seq::<Seq<u8>>::empty() =~= field_views(
            fields@,
        ) + seq![cur@]);
    }
    fields.push(cur);
    fields
}

/// Parse one numeric field: a non-empty run of decimal digits whose value
/// fits in 64 bits.
fn parse_u64_field(f: &Vec<u8>) -> (r: Option<u64>)
    ensures
        r == spec_parse_u64(f@),
{
    if f.len() == 0 {
        return None;
    }
    let mut acc: u64 = 0;
    let mut i: usize = 0;
    proof {
        assert(f@.take(0) =~= Seq::<u8>::empty());
    }
    while i < f.len()
        invariant
            0 <= i <= f@.len(),
            forall|k: int| 0 <= k < i ==> 48 <= #[trigger] f@[k] <= 57,
            acc == digits_val(f@.take(i as int)),
        decreases f@.len() - i,
    {
        let c = f[i];
        if c < 48 || c > 57 {
            return None;
        }
        proof {
            assert(f@.take(i as int + 1).drop_last() =~= f@.take(i as int));
            assert(f@.take(i as int + 1).last() == f@[i as int]);
        }
        let wide: u128 = acc as u128 * 10 + (c - 48) as u128;
        if wide > u64::MAX as u128 {
            proof {
                if is_digits(f@) {
                    lemma_digits_val_prefix(f@, i as int + 1);
                }
            }
            return None;
        }
        acc = wide as u64;
        i += 1;
    }
    proof {
        assert(f@.take(f@.len() as int) =~= f@);
    }
    Some(acc)
}

/// Whether a field spells the given keyword.
fn field_is(f: &Vec<u8>, kw: &str) -> (r: bool)
    ensures
        r == (f@ == kw.spec_bytes()),
{
    let kb = kw.as_bytes();
    if f.len() != kb.len() {
        return false;
    }
    let mut i: usize = 0;
    while i < f.len()
        invariant
            0 <= i <= f@.len(),
            f@.len() == kb@.len(),
            kb@ == kw.spec_bytes(),
            forall|k: int| 0 <= k < i ==> f@[k] == kb@[k],
        decreases f@.len() - i,
    {
        if f[i] != kb[i] {
            return false;
        }
        i += 1;
    }
    proof {
        assert(f@ =~= kb@);
    }
    true
}

/// Parse one side field.
fn parse_side_field(f: &Vec<u8>) -> (r: Option<Side>)
    ensures
        r == side_of(f@),
{
    if field_is(f, "bid") || field_is(f, "BID") || field_is(f, "Bid") {
        Some(Side::Bid)
    } else if field_is(f, "ask") || field_is(f, "ASK") || field_is(f, "Ask") {
        Some(Side::Ask)
    } else {
        None
    }
}

/// Parse the text form of a command. The result — the command, or the error
/// describing the first grammar rule the line breaks — is exactly the one
/// the grammar assigns to the line's UTF-8 bytes.
pub fn parse_order(s: &str) -> (r: Result<OrderType, OrderParseError>)
    ensures
        r == parse_order_spec(s.spec_bytes()),
{
    let bytes = s.as_bytes();
    let fields = split_bytes(bytes);
    let ghost fv = field_views(fields@);
    if fields.len() < 2 {
        return Err(OrderParseError::InvalidFieldSize);
    }
    if field_is(&fields[1], "cancel") {
        return match parse_u64_field(&fields[0]) {
            Some(id) => Ok(OrderType::Cancel { id }),
            None => Err(OrderParseError::InvalidInteger),
        };
    }
    if fields.len() < 3 {
        return Err(OrderParseError::InvalidFieldSize);
    }
    let is_market = field_is(&fields[2], "market");
    let is_limit = field_is(&fields[2], "limit");
    let is_ioc = field_is(&fields[2], "ioc");
    let is_fok = field_is(&fields[2], "fok");
    if is_market {
        if fields.len() < 5 {
            return Err(OrderParseError::InvalidFieldSize);
        }
        let id = match parse_u64_field(&fields[0]) {
            Some(v) => v,
            None => {
                return Err(OrderParseError::InvalidInteger);
            },
        };
        let user_id = match parse_u64_field(&fields[1]) {
            Some(v) => v,
            None => {
                return Err(OrderParseError::InvalidInteger);
            },
        };
        let side = match parse_side_field(&fields[3]) {
            Some(v) => v,
            None => {
                return Err(OrderParseError::InvalidSide);
            },
        };
        let qty = match parse_u64_field(&fields[4]) {
            Some(v) => v,
            None => {
                return Err(OrderParseError::InvalidInteger);
            },
        };
        Ok(OrderType::Market { id, user_id, side, qty })
    } else if is_limit || is_ioc || is_fok {
        if fields.len() < 6 {
            return Err(OrderParseError::InvalidFieldSize);
        }
        let id = match parse_u64_field(&fields[0]) {
            Some(v) => v,
            None => {
                return Err(OrderParseError::InvalidInteger);
            },
        };
        let user_id = match parse_u64_field(&fields[1]) {
            Some(v) => v,
            None => {
                return Err(OrderParseError::InvalidInteger);
            },
        };
        let side = match parse_side_field(&fields[3]) {
            Some(v) => v,
            None => {
                return Err(OrderParseError::InvalidSide);
            },
        };
        let qty = match parse_u64_field(&fields[4]) {
            Some(v) => v,
            None => {
                return Err(OrderParseError::InvalidInteger);
            },
        };
        let price = match parse_u64_field(&fields[5]) {
            Some(v) => v,
            None => {
                return Err(OrderParseError::InvalidInteger);
            },
        };
        if is_limit {
            Ok(OrderType::Limit { id, user_id, side, qty, price })
        } else if is_ioc {
            Ok(OrderType::IOC { id, user_id, side, qty, price })
        } else {
            Ok(OrderType::FOK { id, user_id, side, qty, price })
        }
    } else {
        Err(OrderParseError::InvalidOrderType)
    }
}

impl core::str::FromStr for OrderType {
    type Err = OrderParseError;

    /// Parse the text form of a command; see [`parse_order`].
    fn from_str(s: &str) -> Result<OrderType, OrderParseError> {
        parse_order(s)
    }
}

} // verus!
