//! Stream entries and their decoders: the (id, bytes) envelope stored
//! under the fixed field name `data`, and the batched reply that groups
//! entries by routing key.

use vstd::prelude::*;
use vstd::slice::slice_to_vec;
use crate::error::{ErrorView, Shape, StreamError};
use crate::message_id::MessageId;
use crate::nested::{spec_decode_text, NestedValue, RedisString, verify_field};

verus! {

/// The mathematical value of a stream entry.
pub struct StreamMessageView {
    pub data: Seq<u8>,
    pub id: MessageId,
}

/// A message read back from the stream: the payload bytes and the
/// ordering key the transport assigned on append.
#[derive(Debug)]
pub struct StreamMessage {
    pub data: Vec<u8>,
    pub id: MessageId,
}

impl View for StreamMessage {
    type V = StreamMessageView;

    open spec fn view(&self) -> StreamMessageView {
        StreamMessageView { data: self.data@, id: self.id }
    }
}

/// The field name every entry stores its payload under.
pub open spec fn data_field_name() -> Seq<char> {
    seq!['d', 'a', 't', 'a']
}

/// What decoding one stream entry yields. The entry must be a
/// two-element list `[id, fields]`; `id` a scalar in the ordering-key
/// textual form; `fields` a two-element list `[name, value]` whose name
/// is exactly `data` and whose value is a scalar of raw bytes.
pub open spec fn spec_decode_entry(v: NestedValue) -> Result<StreamMessageView, ErrorView> {
    match v {
        NestedValue::List(items) => if items@.len() != 2 {
            Err(ErrorView::TypeError {
                expected: Shape::ListOfLen(2),
                found: Shape::ListOfLen(items@.len() as usize),
            })
        } else {
            spec_decode_entry_parts(items@[0], items@[1])
        },
        _ => Err(ErrorView::TypeError { expected: Shape::List, found: v.shape() }),
    }
}

/// The id and fields parts of one entry.
pub open spec fn spec_decode_entry_parts(idv: NestedValue, fieldsv: NestedValue) -> Result<
    StreamMessageView,
    ErrorView,
> {
    match idv {
        NestedValue::Scalar(idb) => match MessageId::spec_parse_bytes(idb@) {
            Err(e) => Err(e),
            Ok(id) => match fieldsv {
                NestedValue::List(fs) => if fs@.len() != 2 {
                    Err(ErrorView::TypeError {
                        expected: Shape::ListOfLen(2),
                        found: Shape::ListOfLen(fs@.len() as usize),
                    })
                } else {
                    match spec_decode_text(fs@[0]) {
                        Err(e) => Err(e),
                        Ok(name) => if name != data_field_name() {
                            Err(ErrorView::UnexpectedValue(name))
                        } else {
                            match fs@[1] {
                                NestedValue::Scalar(data) => Ok(StreamMessageView {
                                    data: data@,
                                    id,
                                }),
                                _ => Err(ErrorView::TypeError {
                                    expected: Shape::Scalar,
                                    found: fs@[1].shape(),
                                }),
                            }
                        },
                    }
                },
                _ => Err(ErrorView::TypeError { expected: Shape::List, found: fieldsv.shape() }),
            },
        },
        _ => Err(ErrorView::TypeError { expected: Shape::Scalar, found: idv.shape() }),
    }
}

impl StreamMessage {
    /// Decodes one stream entry.
    pub fn from_redis_value(v: &NestedValue) -> (r: Result<StreamMessage, StreamError>)
        ensures
            match r {
                Ok(m) => spec_decode_entry(*v) == Ok::<StreamMessageView, ErrorView>(m@),
                Err(e) => spec_decode_entry(*v) == Err::<StreamMessageView, ErrorView>(e@),
            },
    {
        let items = match v.as_list() {
            Ok(l) => l,
            Err(e) => {
                return Err(e);
            },
        };
        if items.len() != 2 {
            return Err(StreamError::TypeError {
                expected: Shape::ListOfLen(2),
                found: Shape::ListOfLen(items.len()),
            });
        }
        let idb = match items[0].as_scalar() {
            Ok(b) => b,
            Err(_) => {
                let found = items[0].kind();
                return Err(StreamError::TypeError { expected: Shape::Scalar, found });
            },
        };
        let id = match MessageId::try_from_bytes(idb.as_slice()) {
            Ok(id) => id,
            Err(e) => {
                return Err(e);
            },
        };
        let fs = match items[1].as_list() {
            Ok(l) => l,
            Err(e) => {
                return Err(e);
            },
        };
        if fs.len() != 2 {
            return Err(StreamError::TypeError {
                expected: Shape::ListOfLen(2),
                found: Shape::ListOfLen(fs.len()),
            });
        }
        proof {
            reveal_strlit("data");
            assert("data"@ =~= data_field_name());
        }
        match verify_field(&fs[0], "data") {
            Ok(_) => {},
            Err(e) => {
                return Err(e);
            },
        }
        let data = match fs[1].as_scalar() {
            Ok(b) => slice_to_vec(b.as_slice()),
            Err(e) => {
                return Err(e);
            },
        };
        Ok(StreamMessage { data, id })
    }
}

/// The bare byte payload of an entry about to be appended: the
/// transport assigns the id, so only the bytes travel.
#[derive(Debug)]
pub struct StreamBinary(pub Vec<u8>);

impl StreamBinary {
    /// The single field tuple, named `data`, ready for append.
    pub fn into_tuple_array(self) -> (r: [(&'static str, Vec<u8>); 1])
        ensures
            r@.len() == 1,
            r@[0].0@ == "data"@,
            r@[0].1@ == self.0@,
    {
        [("data", self.0)]
    }

    /// Wraps owned bytes; never fails.
    pub fn try_from_vec(value: Vec<u8>) -> (r: Result<Self, StreamError>)
        ensures
            r matches Ok(b) && b.0@ == value@,
    {
        Ok(StreamBinary(value))
    }

    /// Copies borrowed bytes; never fails.
    pub fn try_from_slice(value: &[u8]) -> (r: Result<Self, StreamError>)
        ensures
            r matches Ok(b) && b.0@ == value@,
    {
        Ok(StreamBinary(slice_to_vec(value)))
    }
}

/// The mathematical value of a sequence of entries.
pub open spec fn msgs_view(v: Seq<StreamMessage>) -> Seq<StreamMessageView> {
    v.map(|j: int, m: StreamMessage| m@)
}

/// The mathematical value of a grouped reply: routing keys in the
/// order they first appear, each with its entries in reply order.
pub type GroupView = Seq<(Seq<char>, Seq<StreamMessageView>)>;

/// The mathematical value of the grouped container.
pub open spec fn groups_view(v: Seq<(String, Vec<StreamMessage>)>) -> GroupView {
    v.map(|i: int, p: (String, Vec<StreamMessage>)| (p.0@, msgs_view(p.1@)))
}

/// Adds the entries of one reply pair to the mapping: appended to the
/// first group with the same key, or as a new group at the end.
pub open spec fn add_group(
    acc: GroupView,
    key: Seq<char>,
    msgs: Seq<StreamMessageView>,
) -> GroupView
    decreases acc.len(),
{
    if acc.len() == 0 {
        seq![(key, msgs)]
    } else if acc[0].0 == key {
        seq![(acc[0].0, acc[0].1 + msgs)] + acc.drop_first()
    } else {
        seq![acc[0]] + add_group(acc.drop_first(), key, msgs)
    }
}

/// Adding to a mapping whose first `i` keys all differ from `key`
/// touches only the part from `i` on.
pub proof fn lemma_add_group_split(
    acc: GroupView,
    key: Seq<char>,
    msgs: Seq<StreamMessageView>,
    i: int,
)
    requires
        0 <= i <= acc.len(),
        forall|j: int| 0 <= j < i ==> (#[trigger] acc[j]).0 != key,
    ensures
        add_group(acc, key, msgs) == acc.take(i) + add_group(acc.skip(i), key, msgs),
    decreases i,
{
    if i == 0 {
        assert(acc.skip(0) =~= acc);
        assert(acc.take(0) + add_group(acc, key, msgs) =~= add_group(acc, key, msgs));
    } else {
        lemma_add_group_split(acc.drop_first(), key, msgs, i - 1);
        assert(acc.drop_first().take(i - 1) =~= acc.take(i).drop_first());
        assert(acc.drop_first().skip(i - 1) =~= acc.skip(i));
        assert(seq![acc[0]] + (acc.take(i).drop_first() + add_group(acc.skip(i), key, msgs))
            =~= acc.take(i) + add_group(acc.skip(i), key, msgs));
    }
}

/// What decoding the first `n` entry nodes of one pair yields: each
/// must decode as a stream entry; the first failure is the result.
pub open spec fn spec_decode_entries(items: Seq<NestedValue>, n: int) -> Result<
    Seq<StreamMessageView>,
    ErrorView,
>
    decreases n,
{
    if n <= 0 {
        Ok(Seq::empty())
    } else {
        match spec_decode_entries(items, n - 1) {
            Err(e) => Err(e),
            Ok(prev) => match spec_decode_entry(items[n - 1]) {
                Err(e) => Err(e),
                Ok(m) => Ok(prev.push(m)),
            },
        }
    }
}

/// Once a prefix of the entries fails to decode, every longer prefix
/// fails the same way.
pub proof fn lemma_entries_err_persists(items: Seq<NestedValue>, k: int, n: int)
    requires
        0 <= k <= n,
        spec_decode_entries(items, k) is Err,
    ensures
        spec_decode_entries(items, n) == spec_decode_entries(items, k),
    decreases n - k,
{
    if n > k {
        lemma_entries_err_persists(items, k, n - 1);
    }
}

/// What decoding one (key, entries) pair of a grouped reply yields.
pub open spec fn spec_decode_pair(v: NestedValue) -> Result<
    (Seq<char>, Seq<StreamMessageView>),
    ErrorView,
> {
    match v {
        NestedValue::List(kv) => if kv@.len() != 2 {
            Err(ErrorView::TypeError {
                expected: Shape::ListOfLen(2),
                found: Shape::ListOfLen(kv@.len() as usize),
            })
        } else {
            match spec_decode_text(kv@[0]) {
                Err(e) => Err(e),
                Ok(key) => match kv@[1] {
                    NestedValue::List(entries) => match spec_decode_entries(
                        entries@,
                        entries@.len() as int,
                    ) {
                        Err(e) => Err(e),
                        Ok(msgs) => Ok((key, msgs)),
                    },
                    _ => Err(ErrorView::TypeError {
                        expected: Shape::List,
                        found: kv@[1].shape(),
                    }),
                },
            }
        },
        _ => Err(ErrorView::TypeError { expected: Shape::List, found: v.shape() }),
    }
}

/// What decoding the first `n` pairs yields, accumulated in order.
pub open spec fn spec_decode_groups(pairs: Seq<NestedValue>, n: int) -> Result<
    GroupView,
    ErrorView,
>
    decreases n,
{
    if n <= 0 {
        Ok(Seq::empty())
    } else {
        match spec_decode_groups(pairs, n - 1) {
            Err(e) => Err(e),
            Ok(acc) => match spec_decode_pair(pairs[n - 1]) {
                Err(e) => Err(e),
                Ok(km) => Ok(add_group(acc, km.0, km.1)),
            },
        }
    }
}

/// Once a prefix of the pairs fails to decode, every longer prefix
/// fails the same way.
pub proof fn lemma_groups_err_persists(pairs: Seq<NestedValue>, k: int, n: int)
    requires
        0 <= k <= n,
        spec_decode_groups(pairs, k) is Err,
    ensures
        spec_decode_groups(pairs, n) == spec_decode_groups(pairs, k),
    decreases n - k,
{
    if n > k {
        lemma_groups_err_persists(pairs, k, n - 1);
    }
}

/// What decoding a whole grouped reply yields: nil is an empty mapping
/// (no data yet is a legitimate outcome, not an error); otherwise the
/// reply must be a list of (key, entries) pairs.
pub open spec fn spec_decode_grouped(v: NestedValue) -> Result<GroupView, ErrorView> {
    match v {
        NestedValue::Nil => Ok(Seq::empty()),
        NestedValue::List(pairs) => spec_decode_groups(pairs@, pairs@.len() as int),
        _ => Err(ErrorView::TypeError { expected: Shape::List, found: v.shape() }),
    }
}

/// Stream entries grouped by routing key, keys in the order they first
/// appear in the reply, entries of one key in reply order.
#[derive(Debug)]
pub struct StreamMessageByStreamKey(pub Vec<(String, Vec<StreamMessage>)>);

impl View for StreamMessageByStreamKey {
    type V = GroupView;

    open spec fn view(&self) -> GroupView {
        groups_view(self.0@)
    }
}

/// Appends the entries of one pair to the mapping under construction.
fn push_group(acc: &mut Vec<(String, Vec<StreamMessage>)>, key: String, msgs: Vec<StreamMessage>)
    ensures
        groups_view(final(acc)@) == add_group(groups_view(old(acc)@), key@, msgs_view(msgs@)),
{
    let ghost acc0 = acc@;
    let ghost mview = msgs_view(msgs@);
    let ghost keyv = key@;
    let n = acc.len();
    let mut i: usize = 0;
    while i < n
        invariant
            0 <= i <= n,
            n == acc@.len(),
            acc@ == acc0,
            old(acc)@ == acc0,
            msgs_view(msgs@) == mview,
            key@ == keyv,
            forall|j: int| 0 <= j < i ==> (#[trigger] acc@[j]).0@ != key@,
        decreases n - i,
    {
        if acc[i].0 == key {
            proof {
                assert forall|j: int| 0 <= j < i implies (#[trigger] groups_view(acc0)[j]).0
                    != key@ by {
                    assert(groups_view(acc0)[j].0 == acc0[j].0@);
                }
                lemma_add_group_split(groups_view(acc0), key@, mview, i as int);
                assert(groups_view(acc0).skip(i as int)[0] == groups_view(acc0)[i as int]);
                assert(groups_view(acc0)[i as int].0 == acc0[i as int].0@);
            }
            let ghost pair0 = acc0[i as int];
            let pair = acc.remove(i);
            let k0 = pair.0;
            let mut ms = pair.1;
            let mut rest = msgs;
            let ghost k0v = k0@;
            let ghost ms0 = ms@;
            let ghost rest0 = rest@;
            proof {
                assert(k0v == pair0.0@);
                assert(ms0 == pair0.1@);
                assert(msgs_view(rest0) == mview);
            }
            while rest.len() > 0
                invariant
                    msgs_view(ms@) + msgs_view(rest@) =~= msgs_view(ms0) + msgs_view(rest0),
                decreases rest.len(),
            {
                let m = rest.remove(0);
                ms.push(m);
                proof {
                    assert(msgs_view(ms@) + msgs_view(rest@) =~= msgs_view(ms0) + msgs_view(
                        rest0,
                    ));
                }
            }
            proof {
                assert(msgs_view(rest@) =~= Seq::<StreamMessageView>::empty());
                assert(msgs_view(ms@) + msgs_view(rest@) =~= msgs_view(ms@));
                assert(msgs_view(rest0) == mview);
                assert(msgs_view(ms@) =~= msgs_view(ms0) + mview);
            }
            let ghost msf = ms@;
            acc.insert(i, (k0, ms));
            proof {
                let g0 = groups_view(acc0);
                let target = g0.take(i as int) + (seq![(g0[i as int].0, g0[i as int].1 + mview)]
                    + g0.skip(i as int).drop_first());
                assert(g0.skip(i as int).drop_first() =~= g0.skip(i + 1));
                assert(g0[i as int] == (acc0[i as int].0@, msgs_view(acc0[i as int].1@)));
                assert forall|k: int| 0 <= k < groups_view(acc@).len() implies groups_view(acc@)[k]
                    == target[k] by {
                    assert(groups_view(acc@)[k] == (acc@[k].0@, msgs_view(acc@[k].1@)));
                    if k < i {
                        assert(acc@[k] == acc0[k]);
                        assert(target[k] == g0[k]);
                        assert(g0[k] == (acc0[k].0@, msgs_view(acc0[k].1@)));
                    } else if k == i {
                        assert(target[k] == (g0[i as int].0, g0[i as int].1 + mview));
                        assert(acc@[k].0@ == k0v);
                        assert(acc@[k].1@ == msf);
                        assert(g0[i as int].0 == k0v);
                        assert(g0[i as int].1 == msgs_view(ms0));
                        assert(msgs_view(msf) == msgs_view(ms0) + mview);
                    } else {
                        assert(acc@[k] == acc0[k]);
                        assert(target[k] == g0[k]);
                        assert(g0[k] == (acc0[k].0@, msgs_view(acc0[k].1@)));
                    }
                }
                assert(groups_view(acc@) =~= target);
                let skipv = g0.skip(i as int);
                assert(skipv.len() > 0);
                assert(skipv[0].0 == key@);
                assert(add_group(skipv, key@, mview) == seq![(skipv[0].0, skipv[0].1 + mview)]
                    + skipv.drop_first());
                assert(add_group(g0, key@, mview) == g0.take(i as int) + add_group(skipv, key@,
                    mview));
                assert(groups_view(acc@) == add_group(g0, key@, mview));
                assert(g0 == groups_view(old(acc)@));
                assert(key@ == keyv);
                assert(groups_view(acc@) == add_group(groups_view(old(acc)@), keyv, mview));
            }
            return ;
        }
        i = i + 1;
    }
    proof {
        assert forall|j: int| 0 <= j < n implies (#[trigger] groups_view(acc0)[j]).0 != key@ by {
            assert(groups_view(acc0)[j].0 == acc0[j].0@);
        }
        lemma_add_group_split(groups_view(acc0), key@, mview, n as int);
        assert(groups_view(acc0).skip(n as int) =~= Seq::<(Seq<char>, Seq<StreamMessageView>)>::empty());
    }
    acc.push((key, msgs));
    proof {
        assert(groups_view(acc@) =~= groups_view(acc0) + seq![(key@, mview)]);
        assert(groups_view(acc0).take(n as int) =~= groups_view(acc0));
    }
}

/// Decodes the entry nodes of one pair, in order.
fn decode_entries(entries: &Vec<NestedValue>) -> (r: Result<Vec<StreamMessage>, StreamError>)
    ensures
        match r {
            Ok(ms) => spec_decode_entries(entries@, entries@.len() as int) == Ok::<
                Seq<StreamMessageView>,
                ErrorView,
            >(msgs_view(ms@)),
            Err(e) => spec_decode_entries(entries@, entries@.len() as int) == Err::<
                Seq<StreamMessageView>,
                ErrorView,
            >(e@),
        },
{
    let n = entries.len();
    let mut ms: Vec<StreamMessage> = Vec::new();
    let mut i: usize = 0;
    proof {
        assert(msgs_view(ms@) =~= Seq::<StreamMessageView>::empty());
    }
    while i < n
        invariant
            0 <= i <= n,
            n == entries@.len(),
            spec_decode_entries(entries@, i as int) == Ok::<Seq<StreamMessageView>, ErrorView>(
                msgs_view(ms@),
            ),
        decreases n - i,
    {
        let m = match StreamMessage::from_redis_value(&entries[i]) {
            Ok(m) => m,
            Err(e) => {
                proof {
                    lemma_entries_err_persists(entries@, i + 1, n as int);
                }
                return Err(e);
            },
        };
        let ghost ms_pre = ms@;
        ms.push(m);
        i = i + 1;
        proof {
            assert(msgs_view(ms@) =~= msgs_view(ms_pre).push(ms@.last()@));
        }
    }
    Ok(ms)
}

/// Decodes one (key, entries) pair of a grouped reply.
fn decode_pair(v: &NestedValue) -> (r: Result<(String, Vec<StreamMessage>), StreamError>)
    ensures
        match r {
            Ok(km) => spec_decode_pair(*v) == Ok::<(Seq<char>, Seq<StreamMessageView>), ErrorView>(
                (km.0@, msgs_view(km.1@)),
            ),
            Err(e) => spec_decode_pair(*v) == Err::<(Seq<char>, Seq<StreamMessageView>), ErrorView>(
                e@,
            ),
        },
{
    let kv = match v.as_list() {
        Ok(l) => l,
        Err(e) => {
            return Err(e);
        },
    };
    if kv.len() != 2 {
        return Err(StreamError::TypeError {
            expected: Shape::ListOfLen(2),
            found: Shape::ListOfLen(kv.len()),
        });
    }
    let key = match RedisString::from_redis_value(&kv[0]) {
        Ok(s) => s.0,
        Err(e) => {
            return Err(e);
        },
    };
    let entries = match kv[1].as_list() {
        Ok(l) => l,
        Err(_) => {
            let found = kv[1].kind();
            return Err(StreamError::TypeError { expected: Shape::List, found });
        },
    };
    let msgs = match decode_entries(entries) {
        Ok(ms) => ms,
        Err(e) => {
            return Err(e);
        },
    };
    Ok((key, msgs))
}

impl StreamMessageByStreamKey {
    /// Decodes a whole grouped reply: nil yields an empty mapping;
    /// otherwise a list of (key, entries) pairs, accumulated in order.
    pub fn from_redis_value(v: &NestedValue) -> (r: Result<StreamMessageByStreamKey, StreamError>)
        ensures
            match r {
                Ok(g) => spec_decode_grouped(*v) == Ok::<GroupView, ErrorView>(g@),
                Err(e) => spec_decode_grouped(*v) == Err::<GroupView, ErrorView>(e@),
            },
    {
        if v.is_nil() {
            let r = StreamMessageByStreamKey(Vec::new());
            proof {
                assert(r@ =~= Seq::<(Seq<char>, Seq<StreamMessageView>)>::empty());
            }
            return Ok(r);
        }
        let pairs = match v.as_list() {
            Ok(l) => l,
            Err(e) => {
                return Err(e);
            },
        };
        let n = pairs.len();
        let mut acc: Vec<(String, Vec<StreamMessage>)> = Vec::new();
        let mut i: usize = 0;
        proof {
            assert(groups_view(acc@) =~= Seq::<(Seq<char>, Seq<StreamMessageView>)>::empty());
            assert(spec_decode_grouped(*v) == spec_decode_groups(pairs@, pairs@.len() as int));
        }
        while i < n
            invariant
                0 <= i <= n,
                n == pairs@.len(),
                spec_decode_grouped(*v) == spec_decode_groups(pairs@, pairs@.len() as int),
                spec_decode_groups(pairs@, i as int) == Ok::<GroupView, ErrorView>(
                    groups_view(acc@),
                ),
            decreases n - i,
        {
            let km = match decode_pair(&pairs[i]) {
                Ok(km) => km,
                Err(e) => {
                    proof {
                        assert(spec_decode_groups(pairs@, i + 1) == Err::<GroupView, ErrorView>(
                            e@,
                        ));
                        lemma_groups_err_persists(pairs@, i + 1, n as int);
                    }
                    return Err(e);
                },
            };
            push_group(&mut acc, km.0, km.1);
            i = i + 1;
        }
        Ok(StreamMessageByStreamKey(acc))
    }
}

impl From<StreamMessage> for StreamBinary {
    /// Keeps only the payload bytes of a message read back.
    fn from(m: StreamMessage) -> (r: Self) {
        StreamBinary(m.data)
    }
}

impl vstd::std_specs::convert::FromSpecImpl<StreamMessage> for StreamBinary {
    open spec fn obeys_from_spec() -> bool {
        true
    }

    open spec fn from_spec(m: StreamMessage) -> Self {
        StreamBinary(m.data)
    }
}

} // verus!
