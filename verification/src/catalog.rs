//! The fixed set of named commands: each builds the request map for one
//! worker command from typed caller arguments. A command synthesizes what the
//! caller left out — a fresh session identifier, the current time as a
//! decimal string — but performs no I/O of its own.

use vstd::prelude::*;
use vstd::string::StringSliceAdditionalSpecFns;
use crate::json::{dec_digits, decimal_string, JVal};
use crate::payload::RequestMap;

verus! {

/// A named command together with its request map.
pub struct CommandRequest {
    pub command: Vec<u8>,
    pub payload: RequestMap,
}

fn kb(s: &str) -> (r: Vec<u8>)
    ensures
        r@ == s.spec_bytes(),
{
    vstd::string::StrSliceExecFns::as_bytes_vec(s)
}

/// The caller's session identifier, or a fresh 36-byte one of hexadecimal
/// digits and hyphens when none was supplied.
pub fn session_or_fresh(session_id: Option<Vec<u8>>) -> (r: Vec<u8>)
    ensures
        match session_id {
            Some(s) => r@ == s@,
            None => r@.len() == 36 && forall|x: int|
                0 <= x < r@.len() ==> crate::bridge::id_byte(#[trigger] r@[x]),
        },
{
    match session_id {
        Some(s) => s,
        None => crate::bridge::fresh_request_id(),
    }
}

/// The greeting returned without consulting the worker.
pub fn greet(name: &Vec<u8>) -> (r: Vec<u8>)
    ensures
        r@ == "Hello, ".spec_bytes() + name@ + "! You've been greeted from Rust!".spec_bytes(),
{
    let mut r = kb("Hello, ");
    let mut n = name.clone();
    r.append(&mut n);
    let mut t = kb("! You've been greeted from Rust!");
    r.append(&mut t);
    proof {
        assert(r@ =~= "Hello, ".spec_bytes() + name@
            + "! You've been greeted from Rust!".spec_bytes());
    }
    r
}

pub fn hello_backend(name: Vec<u8>, now_secs: u64) -> (r: CommandRequest)
    ensures
        r.command@ == "hello".spec_bytes(),
        r.payload@ == seq![
            ("name".spec_bytes(), JVal::Str(name@)),
            ("timestamp".spec_bytes(), JVal::Str(dec_digits(now_secs as int))),
        ],
{
    let mut m = RequestMap::new();
    m.insert_str(kb("name"), name);
    m.insert_str(kb("timestamp"), decimal_string(now_secs));
    proof {
        assert(m@ =~= seq![
            ("name".spec_bytes(), JVal::Str(name@)),
            ("timestamp".spec_bytes(), JVal::Str(dec_digits(now_secs as int))),
        ]);
    }
    CommandRequest { command: kb("hello"), payload: m }
}

pub fn process_url(url: Vec<u8>) -> (r: CommandRequest)
    ensures
        r.command@ == "process_url".spec_bytes(),
        r.payload@ == seq![("url".spec_bytes(), JVal::Str(url@))],
{
    let mut m = RequestMap::new();
    m.insert_str(kb("url"), url);
    proof {
        assert(m@ =~= seq![("url".spec_bytes(), JVal::Str(url@))]);
    }
    CommandRequest { command: kb("process_url"), payload: m }
}

pub fn summarize_page(url: Vec<u8>) -> (r: CommandRequest)
    ensures
        r.command@ == "summarize_page".spec_bytes(),
        r.payload@ == seq![("url".spec_bytes(), JVal::Str(url@))],
{
    let mut m = RequestMap::new();
    m.insert_str(kb("url"), url);
    proof {
        assert(m@ =~= seq![("url".spec_bytes(), JVal::Str(url@))]);
    }
    CommandRequest { command: kb("summarize_page"), payload: m }
}

pub fn get_browser_data(data_type: Vec<u8>) -> (r: CommandRequest)
    ensures
        r.command@ == "get_browser_data".spec_bytes(),
        r.payload@ == seq![("type".spec_bytes(), JVal::Str(data_type@))],
{
    let mut m = RequestMap::new();
    m.insert_str(kb("type"), data_type);
    proof {
        assert(m@ =~= seq![("type".spec_bytes(), JVal::Str(data_type@))]);
    }
    CommandRequest { command: kb("get_browser_data"), payload: m }
}

pub fn analyze_content(content: Vec<u8>) -> (r: CommandRequest)
    ensures
        r.command@ == "analyze_content".spec_bytes(),
        r.payload@ == seq![("content".spec_bytes(), JVal::Str(content@))],
{
    let mut m = RequestMap::new();
    m.insert_str(kb("content"), content);
    proof {
        assert(m@ =~= seq![("content".spec_bytes(), JVal::Str(content@))]);
    }
    CommandRequest { command: kb("analyze_content"), payload: m }
}

pub fn init_database() -> (r: CommandRequest)
    ensures
        r.command@ == "init_database".spec_bytes(),
        r.payload@ == Seq::<(Seq<u8>, JVal)>::empty(),
{
    CommandRequest { command: kb("init_database"), payload: RequestMap::new() }
}

pub fn chat_with_llm(message: Vec<u8>, session_id: Option<Vec<u8>>) -> (r: CommandRequest)
    ensures
        r.command@ == "chat_with_llm".spec_bytes(),
        r.payload@.len() == 2,
        r.payload@[0] == ("message".spec_bytes(), JVal::Str(message@)),
        r.payload@[1].0 == "session_id".spec_bytes(),
        match session_id {
            Some(s) => r.payload@[1].1 == JVal::Str(s@),
            None => r.payload@[1].1 matches JVal::Str(t) && t.len() == 36 && (forall|x: int|
                0 <= x < t.len() ==> crate::bridge::id_byte(#[trigger] t[x])),
        },
{
    let session = session_or_fresh(session_id);
    let mut m = RequestMap::new();
    m.insert_str(kb("message"), message);
    m.insert_str(kb("session_id"), session);
    CommandRequest { command: kb("chat_with_llm"), payload: m }
}

pub fn save_bookmark(url: Vec<u8>, title: Vec<u8>, content: Option<Vec<u8>>) -> (r: CommandRequest)
    ensures
        r.command@ == "save_bookmark".spec_bytes(),
        r.payload@ == seq![
            ("url".spec_bytes(), JVal::Str(url@)),
            ("title".spec_bytes(), JVal::Str(title@)),
        ] + (match content {
            Some(c) => seq![("content".spec_bytes(), JVal::Str(c@))],
            None => Seq::<(Seq<u8>, JVal)>::empty(),
        }),
{
    let mut m = RequestMap::new();
    m.insert_str(kb("url"), url);
    m.insert_str(kb("title"), title);
    let ghost base = seq![
        ("url".spec_bytes(), JVal::Str(url@)),
        ("title".spec_bytes(), JVal::Str(title@)),
    ];
    proof {
        assert(m@ =~= base);
    }
    match content {
        Some(c) => {
            m.insert_str(kb("content"), c);
            proof {
                assert(m@ =~= base + seq![("content".spec_bytes(), JVal::Str(c@))]);
            }
        },
        None => {
            proof {
                assert(m@ =~= base + Seq::<(Seq<u8>, JVal)>::empty());
            }
        },
    }
    CommandRequest { command: kb("save_bookmark"), payload: m }
}

pub fn get_chat_history(session_id: Option<Vec<u8>>, limit: Option<i32>) -> (r: CommandRequest)
    ensures
        r.command@ == "get_chat_history".spec_bytes(),
        r.payload@ == (match session_id {
            Some(s) => seq![("session_id".spec_bytes(), JVal::Str(s@))],
            None => Seq::<(Seq<u8>, JVal)>::empty(),
        }) + (match limit {
            Some(l) => seq![("limit".spec_bytes(), JVal::Int(l as int))],
            None => Seq::<(Seq<u8>, JVal)>::empty(),
        }),
{
    let mut m = RequestMap::new();
    let ghost first = if session_id is Some {
        seq![("session_id".spec_bytes(), JVal::Str(session_id->Some_0@))]
    } else {
        Seq::<(Seq<u8>, JVal)>::empty()
    };
    match session_id {
        Some(s) => {
            m.insert_str(kb("session_id"), s);
        },
        None => {},
    }
    proof {
        assert(m@ =~= first);
    }
    match limit {
        Some(l) => {
            m.insert_int(kb("limit"), l as i64);
            proof {
                assert(m@ =~= first + seq![("limit".spec_bytes(), JVal::Int(l as int))]);
            }
        },
        None => {
            proof {
                assert(m@ =~= first + Seq::<(Seq<u8>, JVal)>::empty());
            }
        },
    }
    CommandRequest { command: kb("get_chat_history"), payload: m }
}

pub fn get_bookmarks(search_query: Option<Vec<u8>>) -> (r: CommandRequest)
    ensures
        r.command@ == "get_bookmarks".spec_bytes(),
        r.payload@ == (match search_query {
            Some(q) => seq![("search_query".spec_bytes(), JVal::Str(q@))],
            None => Seq::<(Seq<u8>, JVal)>::empty(),
        }),
{
    let mut m = RequestMap::new();
    match search_query {
        Some(q) => {
            m.insert_str(kb("search_query"), q);
            proof {
                assert(m@ =~= seq![("search_query".spec_bytes(), JVal::Str(q@))]);
            }
        },
        None => {},
    }
    CommandRequest { command: kb("get_bookmarks"), payload: m }
}

pub fn search_bookmarks(query: Vec<u8>, limit: Option<i32>) -> (r: CommandRequest)
    ensures
        r.command@ == "search_bookmarks".spec_bytes(),
        r.payload@ == seq![("query".spec_bytes(), JVal::Str(query@))] + (match limit {
            Some(l) => seq![("limit".spec_bytes(), JVal::Int(l as int))],
            None => Seq::<(Seq<u8>, JVal)>::empty(),
        }),
{
    let mut m = RequestMap::new();
    m.insert_str(kb("query"), query);
    let ghost base = seq![("query".spec_bytes(), JVal::Str(query@))];
    proof {
        assert(m@ =~= base);
    }
    match limit {
        Some(l) => {
            m.insert_int(kb("limit"), l as i64);
            proof {
                assert(m@ =~= base + seq![("limit".spec_bytes(), JVal::Int(l as int))]);
            }
        },
        None => {
            proof {
                assert(m@ =~= base + Seq::<(Seq<u8>, JVal)>::empty());
            }
        },
    }
    CommandRequest { command: kb("search_bookmarks"), payload: m }
}

pub fn get_browser_history(limit: Option<i32>, search_query: Option<Vec<u8>>) -> (r:
    CommandRequest)
    ensures
        r.command@ == "get_browser_history".spec_bytes(),
        r.payload@ == (match limit {
            Some(l) => seq![("limit".spec_bytes(), JVal::Int(l as int))],
            None => Seq::<(Seq<u8>, JVal)>::empty(),
        }) + (match search_query {
            Some(q) => seq![("search_query".spec_bytes(), JVal::Str(q@))],
            None => Seq::<(Seq<u8>, JVal)>::empty(),
        }),
{
    let mut m = RequestMap::new();
    let ghost first = match limit {
        Some(l) => seq![("limit".spec_bytes(), JVal::Int(l as int))],
        None => Seq::<(Seq<u8>, JVal)>::empty(),
    };
    match limit {
        Some(l) => {
            m.insert_int(kb("limit"), l as i64);
        },
        None => {},
    }
    proof {
        assert(m@ =~= first);
    }
    match search_query {
        Some(q) => {
            m.insert_str(kb("search_query"), q);
            proof {
                assert(m@ =~= first + seq![("search_query".spec_bytes(), JVal::Str(q@))]);
            }
        },
        None => {
            proof {
                assert(m@ =~= first + Seq::<(Seq<u8>, JVal)>::empty());
            }
        },
    }
    CommandRequest { command: kb("get_browser_history"), payload: m }
}

pub fn add_history_entry(
    url: Vec<u8>,
    title: Vec<u8>,
    visit_time: Option<Vec<u8>>,
    now_secs: u64,
) -> (r: CommandRequest)
    ensures
        r.command@ == "add_history_entry".spec_bytes(),
        r.payload@ == seq![
            ("url".spec_bytes(), JVal::Str(url@)),
            ("title".spec_bytes(), JVal::Str(title@)),
            (
                "visit_time".spec_bytes(),
                JVal::Str(
                    match visit_time {
                        Some(t) => t@,
                        None => dec_digits(now_secs as int),
                    },
                ),
            ),
        ],
{
    let mut m = RequestMap::new();
    m.insert_str(kb("url"), url);
    m.insert_str(kb("title"), title);
    let stamp = match visit_time {
        Some(t) => t,
        None => decimal_string(now_secs),
    };
    m.insert_str(kb("visit_time"), stamp);
    proof {
        assert(m@ =~= seq![
            ("url".spec_bytes(), JVal::Str(url@)),
            ("title".spec_bytes(), JVal::Str(title@)),
            (
                "visit_time".spec_bytes(),
                JVal::Str(
                    match visit_time {
                        Some(t) => t@,
                        None => dec_digits(now_secs as int),
                    },
                ),
            ),
        ]);
    }
    CommandRequest { command: kb("add_history_entry"), payload: m }
}

pub fn search_web(query: Vec<u8>, provider: Option<Vec<u8>>, limit: Option<i32>) -> (r:
    CommandRequest)
    ensures
        r.command@ == "search_web".spec_bytes(),
        r.payload@ == seq![("query".spec_bytes(), JVal::Str(query@))] + (match provider {
            Some(p) => seq![("provider".spec_bytes(), JVal::Str(p@))],
            None => Seq::<(Seq<u8>, JVal)>::empty(),
        }) + (match limit {
            Some(l) => seq![("limit".spec_bytes(), JVal::Int(l as int))],
            None => Seq::<(Seq<u8>, JVal)>::empty(),
        }),
{
    let mut m = RequestMap::new();
    m.insert_str(kb("query"), query);
    let ghost base = seq![("query".spec_bytes(), JVal::Str(query@))];
    proof {
        assert(m@ =~= base);
    }
    let ghost second = if provider is Some {
        seq![("provider".spec_bytes(), JVal::Str(provider->Some_0@))]
    } else {
        Seq::<(Seq<u8>, JVal)>::empty()
    };
    match provider {
        Some(p) => {
            m.insert_str(kb("provider"), p);
        },
        None => {},
    }
    proof {
        assert(m@ =~= base + second);
    }
    match limit {
        Some(l) => {
            m.insert_int(kb("limit"), l as i64);
            proof {
                assert(m@ =~= base + second + seq![
                    ("limit".spec_bytes(), JVal::Int(l as int)),
                ]);
            }
        },
        None => {
            proof {
                assert(m@ =~= base + second + Seq::<(Seq<u8>, JVal)>::empty());
            }
        },
    }
    CommandRequest { command: kb("search_web"), payload: m }
}

pub fn set_user_setting(key: Vec<u8>, value: Vec<u8>) -> (r: CommandRequest)
    ensures
        r.command@ == "set_user_setting".spec_bytes(),
        r.payload@ == seq![
            ("key".spec_bytes(), JVal::Str(key@)),
            ("value".spec_bytes(), JVal::Str(value@)),
        ],
{
    let mut m = RequestMap::new();
    m.insert_str(kb("key"), key);
    m.insert_str(kb("value"), value);
    proof {
        assert(m@ =~= seq![
            ("key".spec_bytes(), JVal::Str(key@)),
            ("value".spec_bytes(), JVal::Str(value@)),
        ]);
    }
    CommandRequest { command: kb("set_user_setting"), payload: m }
}

pub fn get_user_setting(key: Vec<u8>) -> (r: CommandRequest)
    ensures
        r.command@ == "get_user_setting".spec_bytes(),
        r.payload@ == seq![("key".spec_bytes(), JVal::Str(key@))],
{
    let mut m = RequestMap::new();
    m.insert_str(kb("key"), key);
    proof {
        assert(m@ =~= seq![("key".spec_bytes(), JVal::Str(key@))]);
    }
    CommandRequest { command: kb("get_user_setting"), payload: m }
}

pub fn clear_chat_history(session_id: Option<Vec<u8>>) -> (r: CommandRequest)
    ensures
        r.command@ == "clear_chat_history".spec_bytes(),
        r.payload@ == (match session_id {
            Some(s) => seq![("session_id".spec_bytes(), JVal::Str(s@))],
            None => Seq::<(Seq<u8>, JVal)>::empty(),
        }),
{
    let mut m = RequestMap::new();
    match session_id {
        Some(s) => {
            m.insert_str(kb("session_id"), s);
            proof {
                assert(m@ =~= seq![("session_id".spec_bytes(), JVal::Str(s@))]);
            }
        },
        None => {},
    }
    CommandRequest { command: kb("clear_chat_history"), payload: m }
}

pub fn clear_browser_history() -> (r: CommandRequest)
    ensures
        r.command@ == "clear_browser_history".spec_bytes(),
        r.payload@ == Seq::<(Seq<u8>, JVal)>::empty(),
{
    CommandRequest { command: kb("clear_browser_history"), payload: RequestMap::new() }
}

pub fn clear_conversation_context(session_id: Option<Vec<u8>>) -> (r: CommandRequest)
    ensures
        r.command@ == "clear_conversation_context".spec_bytes(),
        r.payload@ == (match session_id {
            Some(s) => seq![("session_id".spec_bytes(), JVal::Str(s@))],
            None => Seq::<(Seq<u8>, JVal)>::empty(),
        }),
{
    let mut m = RequestMap::new();
    match session_id {
        Some(s) => {
            m.insert_str(kb("session_id"), s);
            proof {
                assert(m@ =~= seq![("session_id".spec_bytes(), JVal::Str(s@))]);
            }
        },
        None => {},
    }
    CommandRequest { command: kb("clear_conversation_context"), payload: m }
}

} // verus!
