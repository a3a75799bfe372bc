//! The sender identity of an update and its compact string form:
//! the empty string for an anonymous sender, `server` for the server,
//! and `uid:<n>|device_id:<id>` for an addressed client. On decode the
//! two client tokens are accepted in either order, a deliberate
//! compatibility accommodation.

use vstd::prelude::*;
use vstd::string::*;
use crate::error::{ErrorView, StreamError};
use crate::text::{lemma_ascii_bytes_utf8, string_from_utf8};
use crate::dec::{dec_rep, dec_val, digit_val, is_dec_digit, lemma_dec_rep_value, u64_to_dec};
use vstd::utf8::encode_utf8_decode_utf8;

verus! {

/// Whether `c` is an ASCII decimal digit.
pub open spec fn is_digit_char(c: char) -> bool {
    48 <= c as u32 <= 57
}

/// The value of one digit character.
pub open spec fn digit_char_val(c: char) -> nat {
    (c as u32 - 48) as nat
}

/// Whether every character of `s` is a decimal digit.
pub open spec fn all_digit_chars(s: Seq<char>) -> bool {
    forall|i: int| 0 <= i < s.len() ==> is_digit_char(#[trigger] s[i])
}

/// The value of a digit text, most significant digit first.
pub open spec fn dec_val_chars(s: Seq<char>) -> nat
    decreases s.len(),
{
    if s.len() == 0 {
        0
    } else {
        dec_val_chars(s.drop_last()) * 10 + digit_char_val(s.last())
    }
}

/// The value of a digit text grows, digit by digit, from any prefix.
pub proof fn lemma_dec_val_chars_take_step(s: Seq<char>, i: int)
    requires
        0 <= i < s.len(),
    ensures
        dec_val_chars(s.take(i + 1)) == dec_val_chars(s.take(i)) * 10 + digit_char_val(s[i]),
{
    assert(s.take(i + 1).drop_last() =~= s.take(i));
    assert(s.take(i + 1).last() == s[i]);
}

/// The value of the whole digit text is at least the value of any prefix.
pub proof fn lemma_dec_val_chars_prefix_le(s: Seq<char>, i: int)
    requires
        0 <= i <= s.len(),
    ensures
        dec_val_chars(s) >= dec_val_chars(s.take(i)),
    decreases s.len() - i,
{
    if i == s.len() {
        assert(s.take(i) =~= s);
    } else {
        lemma_dec_val_chars_take_step(s, i);
        lemma_dec_val_chars_prefix_le(s, i + 1);
    }
}

/// Whether a signed-integer text starts with a minus sign.
pub open spec fn int_neg(s: Seq<char>) -> bool {
    s.len() > 0 && s[0] == '-'
}

/// The digits of a signed-integer text: what follows an optional sign.
pub open spec fn int_body(s: Seq<char>) -> Seq<char> {
    if s.len() > 0 && (s[0] == '+' || s[0] == '-') {
        s.drop_first()
    } else {
        s
    }
}

/// Whether `s` is a text std's `i64` parser accepts: an optional sign,
/// then one or more digits, value in the 64-bit signed range.
pub open spec fn parses_as_i64(s: Seq<char>) -> bool {
    &&& int_body(s).len() > 0
    &&& all_digit_chars(int_body(s))
    &&& (if int_neg(s) {
        dec_val_chars(int_body(s)) <= 0x8000_0000_0000_0000
    } else {
        dec_val_chars(int_body(s)) <= 0x7fff_ffff_ffff_ffff
    })
}

/// The value of a signed-integer text.
pub open spec fn i64_of(s: Seq<char>) -> int {
    if int_neg(s) {
        -(dec_val_chars(int_body(s)) as int)
    } else {
        dec_val_chars(int_body(s)) as int
    }
}

/// Parses a signed 64-bit integer from the characters of `s` between
/// `from` and `to`, exactly as std's `i64` parser accepts it.
pub fn parse_i64_range(s: &str, from: usize, to: usize) -> (r: Result<i64, StreamError>)
    requires
        from <= to <= s@.len(),
    ensures
        match r {
            Ok(v) => parses_as_i64(s@.subrange(from as int, to as int)) && v as int == i64_of(
                s@.subrange(from as int, to as int),
            ),
            Err(e) => !parses_as_i64(s@.subrange(from as int, to as int)) && e
                == StreamError::NumericParseError,
        },
{
    let ghost sub = s@.subrange(from as int, to as int);
    if from >= to {
        return Err(StreamError::NumericParseError);
    }
    let c0 = s.get_char(from);
    let neg: bool = c0 == '-';
    let start: usize = if c0 == '-' || c0 == '+' {
        from + 1
    } else {
        from
    };
    let ghost body = int_body(sub);
    proof {
        assert(body =~= s@.subrange(start as int, to as int));
    }
    if start >= to {
        return Err(StreamError::NumericParseError);
    }
    let limit: u64 = if neg {
        0x8000_0000_0000_0000
    } else {
        0x7fff_ffff_ffff_ffff
    };
    let mut acc: u64 = 0;
    let mut i: usize = start;
    while i < to
        invariant
            start <= i <= to <= s@.len(),
            body == s@.subrange(start as int, to as int),
            body == int_body(sub),
            sub == s@.subrange(from as int, to as int),
            neg == int_neg(sub),
            limit == (if neg { 0x8000_0000_0000_0000u64 } else { 0x7fff_ffff_ffff_ffffu64 }),
            all_digit_chars(body.take(i - start)),
            acc == dec_val_chars(body.take(i - start)),
            acc <= limit,
        decreases to - i,
    {
        let c = s.get_char(i);
        let u = c as u32;
        let ghost k = i - start;
        proof {
            assert(body[k] == s@[i as int]);
        }
        if u < 48 || u > 57 {
            proof {
                assert(!is_digit_char(body[k]));
            }
            return Err(StreamError::NumericParseError);
        }
        let d = (u - 48) as u64;
        if acc > (limit - d) / 10 {
            proof {
                let m = limit as int;
                assert((acc as int) * 10 + d > m) by (nonlinear_arith)
                    requires
                        acc as int > (m - d) / 10,
                        0 <= d <= 9,
                        m >= 10,
                ;
                lemma_dec_val_chars_take_step(body, k);
                lemma_dec_val_chars_prefix_le(body, k + 1);
                assert(dec_val_chars(body) > limit as nat);
            }
            return Err(StreamError::NumericParseError);
        }
        proof {
            let m = limit as int;
            assert((acc as int) * 10 + d <= m) by (nonlinear_arith)
                requires
                    acc as int <= (m - d) / 10,
                    0 <= d <= 9,
                    m >= 10,
            ;
            lemma_dec_val_chars_take_step(body, k);
        }
        acc = acc * 10 + d;
        i = i + 1;
        proof {
            assert(all_digit_chars(body.take(i - start))) by {
                assert(forall|j: int| 0 <= j < i - start ==> body.take(i - start)[j] == body[j]);
            }
        }
    }
    proof {
        assert(body.take(to - start) =~= body);
    }
    if neg {
        if acc <= 0x7fff_ffff_ffff_ffff {
            Ok(-(acc as i64))
        } else {
            Ok(i64::MIN)
        }
    } else {
        Ok(acc as i64)
    }
}

/// The position of the first `|` in `s`, or `-1` when there is none.
pub open spec fn bar_pos(s: Seq<char>) -> int
    decreases s.len(),
{
    if s.len() == 0 {
        -1
    } else if s[0] == '|' {
        0
    } else {
        let p = bar_pos(s.drop_first());
        if p < 0 {
            -1
        } else {
            p + 1
        }
    }
}

/// When no character of `s` is a `|`, there is no bar position.
pub proof fn lemma_bar_pos_none(s: Seq<char>)
    requires
        forall|j: int| 0 <= j < s.len() ==> #[trigger] s[j] != '|',
    ensures
        bar_pos(s) == -1,
    decreases s.len(),
{
    if s.len() > 0 {
        lemma_bar_pos_none(s.drop_first());
    }
}

/// The first `|` of `s` is at `p` when `s[p]` is a `|` and nothing
/// before it is.
pub proof fn lemma_bar_pos_at(s: Seq<char>, p: int)
    requires
        0 <= p < s.len(),
        s[p] == '|',
        forall|j: int| 0 <= j < p ==> #[trigger] s[j] != '|',
    ensures
        bar_pos(s) == p,
    decreases p,
{
    if p > 0 {
        lemma_bar_pos_at(s.drop_first(), p - 1);
    }
}

/// The text `server`.
pub open spec fn server_text() -> Seq<char> {
    seq!['s', 'e', 'r', 'v', 'e', 'r']
}

/// The token prefix `uid:`.
pub open spec fn uid_prefix() -> Seq<char> {
    seq!['u', 'i', 'd', ':']
}

/// The token prefix `device_id:`.
pub open spec fn device_prefix() -> Seq<char> {
    seq!['d', 'e', 'v', 'i', 'c', 'e', '_', 'i', 'd', ':']
}

/// Whether `s` starts with `p`.
pub open spec fn has_prefix(s: Seq<char>, p: Seq<char>) -> bool {
    s.len() >= p.len() && s.take(p.len() as int) == p
}

/// An addressed client: a user id and the device the update came from.
#[derive(Debug, Clone, PartialEq, Eq)]
pub struct CollabClient {
    pub uid: i64,
    pub device_id: String,
}

/// The mathematical value of a client identity.
pub struct CollabClientView {
    pub uid: i64,
    pub device_id: Seq<char>,
}

impl View for CollabClient {
    type V = CollabClientView;

    open spec fn view(&self) -> CollabClientView {
        CollabClientView { uid: self.uid, device_id: self.device_id@ }
    }
}

/// The origin of an update: anonymous, the server itself, or an
/// addressed client.
#[derive(Debug, Clone, PartialEq, Eq)]
pub enum CollabOrigin {
    /// No sender recorded.
    Empty,
    /// The server produced the update.
    Server,
    /// A client produced the update.
    Client(CollabClient),
}

/// The mathematical value of an origin.
pub enum OriginView {
    Empty,
    Server,
    Client(CollabClientView),
}

impl View for CollabOrigin {
    type V = OriginView;

    open spec fn view(&self) -> OriginView {
        match self {
            CollabOrigin::Empty => OriginView::Empty,
            CollabOrigin::Server => OriginView::Server,
            CollabOrigin::Client(c) => OriginView::Client(c@),
        }
    }
}

/// What decoding a client identity from its two token texts yields:
/// the `uid:` suffix must be a signed 64-bit integer; the `device_id:`
/// suffix is taken as it stands.
pub open spec fn spec_parse_client(uid_text: Seq<char>, device_id: Seq<char>) -> Result<
    OriginView,
    ErrorView,
> {
    if parses_as_i64(uid_text) {
        Ok(OriginView::Client(CollabClientView { uid: i64_of(uid_text) as i64, device_id }))
    } else {
        Err(ErrorView::NumericParseError)
    }
}

/// What decoding a sender identity text yields: empty is anonymous,
/// `server` is the server; anything else must be exactly two
/// `|`-separated tokens, one with prefix `uid:` and the other with
/// prefix `device_id:`, in either order. Any other shape fails,
/// carrying the offending text.
pub open spec fn spec_parse_origin(s: Seq<char>) -> Result<OriginView, ErrorView> {
    if s.len() == 0 {
        Ok(OriginView::Empty)
    } else if s == server_text() {
        Ok(OriginView::Server)
    } else {
        let p = bar_pos(s);
        if p < 0 {
            Err(ErrorView::UnexpectedValue(s))
        } else {
            let t1 = s.take(p);
            let t2 = s.skip(p + 1);
            if bar_pos(t2) >= 0 {
                Err(ErrorView::UnexpectedValue(s))
            } else if has_prefix(t1, uid_prefix()) && has_prefix(t2, device_prefix()) {
                spec_parse_client(t1.skip(4), t2.skip(10))
            } else if has_prefix(t1, device_prefix()) && has_prefix(t2, uid_prefix()) {
                spec_parse_client(t2.skip(4), t1.skip(10))
            } else {
                Err(ErrorView::UnexpectedValue(s))
            }
        }
    }
}

/// Whether the characters of `s` between `from` and `to` start with
/// the text `p`.
fn prefix_matches(s: &str, from: usize, to: usize, p: &str) -> (r: bool)
    requires
        from <= to <= s@.len(),
    ensures
        r == has_prefix(s@.subrange(from as int, to as int), p@),
{
    let ghost sub = s@.subrange(from as int, to as int);
    let plen = p.unicode_len();
    if to - from < plen {
        return false;
    }
    let mut j: usize = 0;
    while j < plen
        invariant
            0 <= j <= plen,
            plen == p@.len(),
            from <= to <= s@.len(),
            to - from >= plen,
            sub == s@.subrange(from as int, to as int),
            forall|k: int| 0 <= k < j ==> #[trigger] sub[k] == p@[k],
        decreases plen - j,
    {
        let cs = s.get_char(from + j);
        let cp = p.get_char(j);
        proof {
            assert(sub[j as int] == s@[from + j]);
        }
        if cs != cp {
            proof {
                assert(sub[j as int] != p@[j as int]);
                if has_prefix(sub, p@) {
                    assert(sub.take(plen as int)[j as int] == sub[j as int]);
                }
            }
            return false;
        }
        j = j + 1;
    }
    proof {
        assert(sub.take(plen as int) =~= p@);
    }
    true
}

/// Finds the position of the first `|` among the characters of `s`
/// from `from` on, if any.
fn find_bar(s: &str, from: usize) -> (r: Option<usize>)
    requires
        from <= s@.len(),
    ensures
        match r {
            Some(i) => from <= i < s@.len() && s@[i as int] == '|' && forall|j: int|
                from <= j < i ==> #[trigger] s@[j] != '|',
            None => forall|j: int| from <= j < s@.len() ==> #[trigger] s@[j] != '|',
        },
{
    let len = s.unicode_len();
    let mut i: usize = from;
    while i < len
        invariant
            from <= i <= len,
            len == s@.len(),
            forall|j: int| from <= j < i ==> #[trigger] s@[j] != '|',
        decreases len - i,
    {
        if s.get_char(i) == '|' {
            return Some(i);
        }
        i = i + 1;
    }
    None
}

/// Decodes a sender identity from its string form.
pub fn collab_origin_from_str(value: &str) -> (r: Result<CollabOrigin, StreamError>)
    ensures
        match r {
            Ok(o) => spec_parse_origin(value@) == Ok::<OriginView, ErrorView>(o@),
            Err(e) => spec_parse_origin(value@) == Err::<OriginView, ErrorView>(e@),
        },
{
    let n = value.unicode_len();
    if n == 0 {
        return Ok(CollabOrigin::Empty);
    }
    proof {
        reveal_strlit("server");
        assert("server"@ =~= server_text());
    }
    if n == 6 && prefix_matches(value, 0, n, "server") {
        proof {
            assert(value@.subrange(0, 6).take(6) =~= value@);
            assert(value@ == server_text());
        }
        return Ok(CollabOrigin::Server);
    }
    proof {
        if value@ == server_text() {
            assert(value@.len() == 6);
            assert(value@.subrange(0, 6) =~= value@);
            assert(value@.take(6) =~= value@);
            assert(has_prefix(value@.subrange(0, 6), "server"@));
        }
    }
    let p = match find_bar(value, 0) {
        Some(p) => p,
        None => {
            proof {
                lemma_bar_pos_none(value@);
            }
            return Err(StreamError::UnexpectedValue(value.to_owned()));
        },
    };
    proof {
        lemma_bar_pos_at(value@, p as int);
    }
    let ghost t1 = value@.take(p as int);
    let ghost t2 = value@.skip(p + 1);
    match find_bar(value, p + 1) {
        Some(_) => {
            proof {
                assert(bar_pos(t2) >= 0) by {
                    let q = choose|q: int|
                        p + 1 <= q < value@.len() && value@[q] == '|' && forall|j: int|
                            p + 1 <= j < q ==> #[trigger] value@[j] != '|';
                    assert(t2[q - p - 1] == '|');
                    lemma_bar_pos_at(t2, q - p - 1);
                }
            }
            return Err(StreamError::UnexpectedValue(value.to_owned()));
        },
        None => {
            proof {
                assert forall|j: int| 0 <= j < t2.len() implies #[trigger] t2[j] != '|' by {
                    assert(t2[j] == value@[p + 1 + j]);
                }
                lemma_bar_pos_none(t2);
            }
        },
    }
    proof {
        reveal_strlit("uid:");
        reveal_strlit("device_id:");
        assert("uid:"@ =~= uid_prefix());
        assert("device_id:"@ =~= device_prefix());
        assert(value@.subrange(0, p as int) == t1);
        assert(value@.subrange(p + 1, value@.len() as int) == t2);
    }
    let t1_uid = prefix_matches(value, 0, p, "uid:");
    let t2_dev = prefix_matches(value, p + 1, n, "device_id:");
    if t1_uid && t2_dev {
        let uid = match parse_i64_range(value, 4, p) {
            Ok(v) => v,
            Err(e) => {
                proof {
                    assert(value@.subrange(4, p as int) =~= t1.skip(4));
                }
                return Err(e);
            },
        };
        let device_id = value.substring_char(p + 11, n).to_owned();
        proof {
            assert(value@.subrange(4, p as int) =~= t1.skip(4));
            assert(value@.subrange(p + 11, n as int) =~= t2.skip(10));
        }
        return Ok(CollabOrigin::Client(CollabClient { uid, device_id }));
    }
    let t1_dev = prefix_matches(value, 0, p, "device_id:");
    let t2_uid = prefix_matches(value, p + 1, n, "uid:");
    if t1_dev && t2_uid {
        let uid = match parse_i64_range(value, p + 5, n) {
            Ok(v) => v,
            Err(e) => {
                proof {
                    assert(value@.subrange(p + 5, n as int) =~= t2.skip(4));
                }
                return Err(e);
            },
        };
        let device_id = value.substring_char(10, p).to_owned();
        proof {
            assert(value@.subrange(p + 5, n as int) =~= t2.skip(4));
            assert(value@.subrange(10, p as int) =~= t1.skip(10));
        }
        return Ok(CollabOrigin::Client(CollabClient { uid, device_id }));
    }
    Err(StreamError::UnexpectedValue(value.to_owned()))
}

/// The characters of the canonical decimal digits of `n`.
pub open spec fn dec_chars(n: nat) -> Seq<char> {
    dec_rep(n).map(|i: int, b: u8| b as char)
}

/// The canonical text of a signed 64-bit value.
pub open spec fn i64_text(v: i64) -> Seq<char> {
    if v < 0 {
        seq!['-'] + dec_chars((-(v as int)) as nat)
    } else {
        dec_chars(v as nat)
    }
}

/// The canonical text of an origin: empty, `server`, or
/// `uid:<n>|device_id:<id>` with the uid always first.
pub open spec fn spec_origin_text(o: OriginView) -> Seq<char> {
    match o {
        OriginView::Empty => Seq::empty(),
        OriginView::Server => server_text(),
        OriginView::Client(c) => uid_prefix() + i64_text(c.uid) + seq!['|'] + device_prefix()
            + c.device_id,
    }
}

/// The value of a digit string is unchanged by reading its bytes as
/// characters.
pub proof fn lemma_dec_val_chars_map(b: Seq<u8>)
    ensures
        dec_val_chars(b.map(|i: int, c: u8| c as char)) == dec_val(b),
    decreases b.len(),
{
    let m = b.map(|i: int, c: u8| c as char);
    if b.len() > 0 {
        lemma_dec_val_chars_map(b.drop_last());
        assert(m.drop_last() =~= b.drop_last().map(|i: int, c: u8| c as char));
        assert(m.last() == b.last() as char);
        assert(digit_char_val(b.last() as char) == digit_val(b.last()));
    }
}

/// Writes `n` as its canonical decimal text.
pub fn u64_to_string(n: u64) -> (r: String)
    ensures
        r@ == dec_chars(n as nat),
{
    let bytes = u64_to_dec(n);
    proof {
        lemma_dec_rep_value(n as nat);
        assert forall|i: int| 0 <= i < bytes@.len() implies #[trigger] bytes@[i] < 128 by {
            assert(is_dec_digit(bytes@[i]));
        }
        lemma_ascii_bytes_utf8(bytes@);
        encode_utf8_decode_utf8(bytes@.map(|i: int, c: u8| c as char));
    }
    match string_from_utf8(bytes) {
        Ok(s) => {
            proof {
                encode_utf8_decode_utf8(s@);
            }
            s
        },
        Err(_) => {
            // unreachable: the digits are ASCII
            String::new()
        },
    }
}

impl CollabOrigin {
    /// The canonical string form, uid before device id.
    pub fn to_text(&self) -> (r: String)
        ensures
            r@ == spec_origin_text(self@),
    {
        match self {
            CollabOrigin::Empty => {
                let r = String::new();
                proof {
                    assert(r@ =~= spec_origin_text(self@));
                }
                r
            },
            CollabOrigin::Server => {
                proof {
                    reveal_strlit("server");
                    assert("server"@ =~= server_text());
                }
                String::from_str("server")
            },
            CollabOrigin::Client(c) => {
                let mut s = String::from_str("uid:");
                if c.uid < 0 {
                    s.append("-");
                    let mag: u64 = if c.uid == i64::MIN {
                        0x8000_0000_0000_0000
                    } else {
                        (-c.uid) as u64
                    };
                    let d = u64_to_string(mag);
                    s.append(d.as_str());
                } else {
                    let d = u64_to_string(c.uid as u64);
                    s.append(d.as_str());
                }
                s.append("|device_id:");
                s.append(c.device_id.as_str());
                proof {
                    reveal_strlit("uid:");
                    reveal_strlit("-");
                    reveal_strlit("|device_id:");
                    assert("uid:"@ =~= uid_prefix());
                    assert("|device_id:"@ =~= seq!['|'] + device_prefix());
                    if c.uid < 0 {
                        assert("-"@ =~= seq!['-']);
                    }
                    assert(s@ =~= spec_origin_text(self@));
                }
                s
            },
        }
    }
}

/// The canonical string form round-trips: decoding the text of any
/// origin yields that origin again, as long as a client's device id
/// holds no `|` (a device id with one cannot survive tokenizing).
pub proof fn lemma_origin_text_round_trip(o: OriginView)
    requires
        o matches OriginView::Client(c) ==> forall|i: int|
            0 <= i < c.device_id.len() ==> #[trigger] c.device_id[i] != '|',
    ensures
        spec_parse_origin(spec_origin_text(o)) == Ok::<OriginView, ErrorView>(o),
{
    match o {
        OriginView::Empty => {},
        OriginView::Server => {},
        OriginView::Client(c) => {
            let it = i64_text(c.uid);
            let dev = c.device_id;
            let s = spec_origin_text(o);
            let mag: nat = if c.uid < 0 {
                (-(c.uid as int)) as nat
            } else {
                c.uid as nat
            };
            lemma_dec_rep_value(mag);
            lemma_dec_val_chars_map(dec_rep(mag));
            assert(dec_chars(mag).len() == dec_rep(mag).len());
            assert forall|i: int| 0 <= i < dec_chars(mag).len() implies is_digit_char(
                #[trigger] dec_chars(mag)[i],
            ) && dec_chars(mag)[i] != '|' && dec_chars(mag)[i] != '+' && dec_chars(mag)[i]
                != '-' by {
                assert(dec_chars(mag)[i] == dec_rep(mag)[i] as char);
                assert(is_dec_digit(dec_rep(mag)[i]));
            }
            let p = 4 + it.len() as int;
            assert(s[p] == '|');
            assert forall|j: int| 0 <= j < p implies #[trigger] s[j] != '|' by {
                if j < 4 {
                    assert(s[j] == uid_prefix()[j]);
                } else {
                    assert(s[j] == it[j - 4]);
                    if c.uid < 0 {
                        if j == 4 {
                            assert(it[0] == '-');
                        } else {
                            assert(it[j - 4] == dec_chars(mag)[j - 5]);
                        }
                    } else {
                        assert(it[j - 4] == dec_chars(mag)[j - 4]);
                    }
                }
            }
            lemma_bar_pos_at(s, p);
            let t1 = s.take(p);
            let t2 = s.skip(p + 1);
            assert(t1 =~= uid_prefix() + it);
            assert(t2 =~= device_prefix() + dev);
            assert forall|j: int| 0 <= j < t2.len() implies #[trigger] t2[j] != '|' by {
                if j < 10 {
                    assert(t2[j] == device_prefix()[j]);
                } else {
                    assert(t2[j] == dev[j - 10]);
                }
            }
            lemma_bar_pos_none(t2);
            assert(t1.take(4) =~= uid_prefix());
            assert(t2.take(10) =~= device_prefix());
            assert(has_prefix(t1, uid_prefix()));
            assert(has_prefix(t2, device_prefix()));
            assert(t1.skip(4) =~= it);
            assert(t2.skip(10) =~= dev);
            if c.uid < 0 {
                assert(int_neg(it));
                assert(int_body(it) =~= dec_chars(mag));
                assert(dec_val_chars(dec_chars(mag)) == mag);
                assert(parses_as_i64(it));
                assert(i64_of(it) == c.uid);
            } else {
                assert(it =~= dec_chars(mag));
                assert(it[0] != '+' && it[0] != '-');
                assert(int_body(it) == it);
                assert(!int_neg(it));
                assert(dec_val_chars(it) == mag);
                assert(parses_as_i64(it));
                assert(i64_of(it) == c.uid);
            }
            assert(s.len() != 6 && s.len() != 0);
            assert(s != server_text());
        },
    }
}

} // verus!
