//! Request and response payloads exchanged with the worker.
//!
//! A request is a flat map from string keys to JSON values, serialized into
//! the temporary file. A response is the single JSON object the worker prints
//! on stdout: a mandatory `success` boolean together with whatever
//! command-specific members are present, kept as an open list with typed
//! projections rather than a record of mostly absent fields.

use vstd::prelude::*;
use vstd::string::StringSliceAdditionalSpecFns;
use crate::json::{
    enc, jview_members, parse, parse_json, JVal, JsonValue,
};

verus! {

/// The flat key/value map serialized for the worker. Insertion order is kept;
/// callers insert each key once.
#[derive(Debug, PartialEq, Eq)]
pub struct RequestMap {
    pub entries: Vec<(Vec<u8>, JsonValue)>,
}

impl View for RequestMap {
    type V = Seq<(Seq<u8>, JVal)>;

    open spec fn view(&self) -> Seq<(Seq<u8>, JVal)> {
        jview_members(self.entries@)
    }
}

proof fn lemma_jview_members_push(s: Seq<(Vec<u8>, JsonValue)>, p: (Vec<u8>, JsonValue))
    ensures
        jview_members(s.push(p)) == jview_members(s).push((p.0@, p.1@)),
{
    assert(s.push(p).drop_last() =~= s);
    assert(s.push(p).last() == p);
}

impl RequestMap {
    pub fn new() -> (r: RequestMap)
        ensures
            r@ == Seq::<(Seq<u8>, JVal)>::empty(),
    {
        let r = RequestMap { entries: Vec::new() };
        proof {
            assert(r.entries@ =~= Seq::<(Vec<u8>, JsonValue)>::empty());
        }
        r
    }

    pub fn insert_value(&mut self, key: Vec<u8>, value: JsonValue)
        ensures
            final(self)@ == old(self)@.push((key@, value@)),
    {
        let ghost s0 = self.entries@;
        let ghost p = (key@, value@);
        self.entries.push((key, value));
        proof {
            lemma_jview_members_push(s0, self.entries@.last());
            assert(self.entries@.drop_last() =~= s0);
        }
    }

    pub fn insert_str(&mut self, key: Vec<u8>, value: Vec<u8>)
        ensures
            final(self)@ == old(self)@.push((key@, JVal::Str(value@))),
    {
        self.insert_value(key, JsonValue::Str(value));
    }

    pub fn insert_int(&mut self, key: Vec<u8>, value: i64)
        ensures
            final(self)@ == old(self)@.push((key@, JVal::Int(value as int))),
    {
        self.insert_value(key, JsonValue::Int(value));
    }
}

/// Serialize a request map as a JSON object, canonically encoded.
pub fn encode_request(m: RequestMap) -> (out: Vec<u8>)
    ensures
        out@ == enc(JVal::Obj(m@)),
{
    let v = JsonValue::Obj(m.entries);
    crate::json::encode(&v)
}

/// The codec round-trips on every request map whose values are well formed
/// (every map the catalog builds is: its values are strings and integers):
/// decoding an encoded map yields a JSON object with exactly the same
/// members, keys and values alike, in order — in particular the two sides
/// agree as key/value sets.
pub proof fn lemma_request_round_trip(m: RequestMap)
    requires
        crate::json::wf(JVal::Obj(m@)),
    ensures
        parse_json(enc(JVal::Obj(m@))) == Some(JVal::Obj(m@)),
{
    crate::json::lemma_round_trip(JVal::Obj(m@));
}

/// The first value bound to `key`, if any.
pub open spec fn lookup(ms: Seq<(Seq<u8>, JVal)>, key: Seq<u8>) -> Option<JVal>
    decreases ms.len(),
{
    if ms.len() == 0 {
        None
    } else if ms[0].0 == key {
        Some(ms[0].1)
    } else {
        lookup(ms.drop_first(), key)
    }
}

pub open spec fn success_key() -> Seq<u8> {
    "success".spec_bytes()
}

/// The members other than `success`, in order.
pub open spec fn non_success(ms: Seq<(Seq<u8>, JVal)>) -> Seq<(Seq<u8>, JVal)>
    decreases ms.len(),
{
    if ms.len() == 0 {
        Seq::empty()
    } else if ms.last().0 == success_key() {
        non_success(ms.drop_last())
    } else {
        non_success(ms.drop_last()).push(ms.last())
    }
}

/// What a worker's stdout decodes to: the JSON object's `success` boolean and
/// its remaining members, or nothing if the bytes are not a JSON object
/// carrying a boolean `success`.
pub open spec fn response_of(s: Seq<u8>) -> Option<(bool, Seq<(Seq<u8>, JVal)>)> {
    match parse_json(s) {
        Some(v) => match v {
            JVal::Obj(ms) => match lookup(ms, success_key()) {
                Some(sv) => match sv {
                    JVal::Bool(b) => Some((b, non_success(ms))),
                    _ => None,
                },
                None => None,
            },
            _ => None,
        },
        None => None,
    }
}

/// A decoded worker response.
#[derive(Debug, PartialEq, Eq)]
pub struct ResponsePayload {
    pub success: bool,
    pub fields: Vec<(Vec<u8>, JsonValue)>,
}

pub fn bytes_eq(a: &Vec<u8>, b: &Vec<u8>) -> (r: bool)
    ensures
        r == (a@ == b@),
{
    if a.len() != b.len() {
        proof {
            assert(a@ != b@);
        }
        return false;
    }
    let n = a.len();
    let mut i: usize = 0;
    while i < n
        invariant
            n == a@.len() == b@.len(),
            0 <= i <= n,
            forall|x: int| 0 <= x < i ==> a@[x] == b@[x],
        decreases n - i,
    {
        if a[i] != b[i] {
            return false;
        }
        i = i + 1;
    }
    proof {
        assert(a@ =~= b@);
    }
    true
}

impl ResponsePayload {
    /// The first member with the given name, if any.
    pub fn field<'a>(&'a self, name: &Vec<u8>) -> (r: Option<&'a JsonValue>)
        ensures
            match r {
                Some(v) => lookup(jview_members(self.fields@), name@) == Some(v@),
                None => lookup(jview_members(self.fields@), name@) is None,
            },
    {
        let n = self.fields.len();
        let mut i: usize = 0;
        proof {
            crate::json::lemma_jview_members_len(self.fields@);
            assert(jview_members(self.fields@).skip(0) =~= jview_members(self.fields@));
        }
        while i < n
            invariant
                n == self.fields@.len(),
                0 <= i <= n,
                jview_members(self.fields@).len() == n,
                forall|x: int|
                    0 <= x < n ==> jview_members(self.fields@)[x] == (
                    #[trigger] self.fields@[x].0@,
                    self.fields@[x].1@,
                    ),
                lookup(jview_members(self.fields@), name@) == lookup(
                    jview_members(self.fields@).skip(i as int),
                    name@,
                ),
            decreases n - i,
        {
            if bytes_eq(&self.fields[i].0, name) {
                proof {
                    assert(jview_members(self.fields@).skip(i as int)[0] == (
                    self.fields@[i as int].0@,
                    self.fields@[i as int].1@,
                    ));
                }
                return Some(&self.fields[i].1);
            }
            proof {
                assert(jview_members(self.fields@).skip(i as int)[0] == (
                self.fields@[i as int].0@,
                self.fields@[i as int].1@,
                ));
                assert(jview_members(self.fields@).skip(i as int).drop_first()
                    =~= jview_members(self.fields@).skip(i + 1));
            }
            i = i + 1;
        }
        proof {
            assert(jview_members(self.fields@).skip(n as int)
                =~= Seq::<(Seq<u8>, JVal)>::empty());
        }
        None
    }
}

/// Decode a worker's stdout. `None` means the bytes are not a single JSON
/// object with a boolean `success` member.
pub fn decode_response(bytes: &Vec<u8>) -> (r: Option<ResponsePayload>)
    ensures
        match r {
            Some(p) => response_of(bytes@) == Some((p.success, jview_members(p.fields@))),
            None => response_of(bytes@) is None,
        },
{
    let parsed = parse(bytes);
    match parsed {
        Some(v) => {
            let ghost vg = v@;
            proof {
                assert(parse_json(bytes@) == Some(vg));
            }
            match v {
            JsonValue::Obj(ms) => {
                proof {
                    assert(vg == JVal::Obj(jview_members(ms@)));
                    crate::json::lemma_jview_members_len(ms@);
                }
                let skey = vstd::string::StrSliceExecFns::as_bytes_vec("success");
                let n = ms.len();
                let ghost jms = jview_members(ms@);
                // find the first `success` member
                let mut i: usize = 0;
                let mut found: Option<bool> = None;
                proof {
                    assert(jms.skip(0) =~= jms);
                }
                while i < n
                    invariant
                        n == ms@.len(),
                        0 <= i <= n,
                        skey@ == success_key(),
                        jms == jview_members(ms@),
                        parse_json(bytes@) == Some(JVal::Obj(jms)),
                        jms.len() == n,
                        forall|x: int|
                            0 <= x < n ==> jms[x] == (#[trigger] ms@[x].0@, ms@[x].1@),
                        match found {
                            Some(b) => lookup(jms, success_key()) == Some(JVal::Bool(b)),
                            None => lookup(jms, success_key()) == lookup(
                                jms.skip(i as int),
                                success_key(),
                            ),
                        },
                    decreases n - i,
                {
                    if found.is_none() {
                        proof {
                            assert(jms.skip(i as int)[0] == (ms@[i as int].0@, ms@[i as int].1@));
                            assert(jms.skip(i as int).drop_first() =~= jms.skip(i + 1));
                        }
                        if bytes_eq(&ms[i].0, &skey) {
                            proof {
                                assert(lookup(jms.skip(i as int), success_key()) == Some(
                                    ms@[i as int].1@,
                                ));
                            }
                            match &ms[i].1 {
                                JsonValue::Bool(b) => {
                                    found = Some(*b);
                                },
                                _ => {
                                    proof {
                                        assert(!(ms@[i as int].1@ is Bool));
                                        assert(parse_json(bytes@) == Some(JVal::Obj(jms)));
                                        assert(response_of(bytes@) is None);
                                    }
                                    return None;
                                },
                            }
                        }
                    }
                    i = i + 1;
                }
                let success = match found {
                    Some(b) => b,
                    None => {
                        proof {
                            assert(jms.skip(n as int) =~= Seq::<(Seq<u8>, JVal)>::empty());
                        }
                        return None;
                    },
                };
                // collect the members other than `success`
                let ghost total = ms@;
                let mut rest = ms;
                let mut fields: Vec<(Vec<u8>, JsonValue)> = Vec::new();
                let ghost mut j: int = 0;
                proof {
                    assert(total.take(0) =~= Seq::<(Vec<u8>, JsonValue)>::empty());
                    assert(jview_members(fields@) =~= Seq::<(Seq<u8>, JVal)>::empty());
                    assert(jview_members(total.take(0)) =~= Seq::<(Seq<u8>, JVal)>::empty());
                    assert(non_success(jview_members(total.take(0)))
                        =~= Seq::<(Seq<u8>, JVal)>::empty());
                    assert(rest@ =~= total.skip(0));
                }
                while rest.len() > 0
                    invariant
                        0 <= j <= total.len(),
                        skey@ == success_key(),
                        rest@ == total.skip(j),
                        jview_members(fields@) == non_success(jview_members(total.take(j))),
                    decreases rest@.len(),
                {
                    let ghost fields0 = fields@;
                    let ghost pre = total.take(j);
                    let entry = rest.remove(0);
                    proof {
                        assert(total.skip(j)[0] == total[j]);
                        assert(entry == total[j]);
                        assert(rest@ =~= total.skip(j + 1));
                    }
                    let keep = !bytes_eq(&entry.0, &skey);
                    if keep {
                        fields.push(entry);
                    }
                    proof {
                        let post = total.take(j + 1);
                        assert(post.drop_last() =~= pre);
                        assert(post.last() == total[j]);
                        lemma_jview_members_push(pre, total[j]);
                        let pr = (total[j].0@, total[j].1@);
                        assert(jview_members(post) == jview_members(pre).push(pr));
                        assert(jview_members(pre).push(pr).drop_last() =~= jview_members(pre));
                        assert(jview_members(pre).push(pr).last() == pr);
                        if keep {
                            lemma_jview_members_push(fields0, total[j]);
                        }
                    }
                    proof {
                        j = j + 1;
                    }
                }
                proof {
                    assert(total.skip(j) =~= rest@);
                    assert(j == total.len());
                    assert(total.take(j) =~= total);
                }
                Some(ResponsePayload { success, fields })
            },
            _ => None,
        }
        },
        None => None,
    }
}

} // verus!
