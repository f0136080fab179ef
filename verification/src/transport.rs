//! Decisions of the HTTP peer transport: how a peer URL becomes a cursor
//! key, how the entries endpoint reads its query, and the request body cap.
//! The sockets themselves live outside the library.

use crate::numtext::{
    int_text_val, is_int_text, is_uint_text, parse_i64_chars, parse_usize_chars, uint_text_val,
};
use crate::strutil::{
    char_range, chars_eq, chars_to_string, find_ch, find_char, lemma_find_ch_at, spec_trim,
    spec_trim_end_in, str_to_chars, trim_chars, trim_end_char,
};
use vstd::prelude::*;

verus! {

/// A peer URL that was blank after normalisation.
#[derive(Debug, Clone, PartialEq, Eq)]
pub struct EmptyPeerUrl {
    pub value: String,
}

/// The cursor key of a peer URL: trimmed, with trailing slashes dropped,
/// so `http://h:p` and `http://h:p/` share one cursor.
pub open spec fn spec_peer_key(value: Seq<char>) -> Seq<char> {
    spec_trim_end_in(spec_trim(value), set!['/'])
}

/// Normalises a peer base URL into its cursor key; blank input is an
/// error.
pub fn normalize_peer_base_url(value: &str) -> (r: Result<String, EmptyPeerUrl>)
    ensures
        spec_peer_key(value@).len() == 0 ==> r matches Err(_),
        spec_peer_key(value@).len() > 0 ==> (r matches Ok(k) && k@ == spec_peer_key(value@)),
{
    let cs = str_to_chars(value);
    let t = trim_chars(cs.as_slice());
    let v = trim_end_char(t.as_slice(), '/');
    if v.len() == 0 {
        Err(EmptyPeerUrl { value: value.to_owned() })
    } else {
        Ok(chars_to_string(v.as_slice()))
    }
}

/// The largest request body the entries endpoint accepts, in bytes;
/// anything larger is answered with status 413.
pub fn max_request_body_bytes() -> (r: usize)
    ensures
        r == 16777216,
{
    16 * 1024 * 1024
}

/// What the entries query resolves to, folding `cursor` and `limit` keys
/// left to right over defaults; `None` when a value fails to parse.
pub open spec fn spec_cursor_limit(q: Seq<char>, cursor: int, limit: int) -> Option<(int, int)>
    decreases q.len(),
{
    let i = find_ch(q, '&');
    if 0 <= i <= q.len() {
        let part = q.subrange(0, i);
        let e = find_ch(part, '=');
        let next: Option<(int, int)> = if 0 <= e < part.len() {
            let k = part.subrange(0, e);
            let v = part.subrange(e + 1, part.len() as int);
            if k == "cursor"@ {
                if is_int_text(v) && i64::MIN <= int_text_val(v) <= i64::MAX {
                    Some((int_text_val(v), limit))
                } else {
                    None
                }
            } else if k == "limit"@ {
                if is_uint_text(v) && uint_text_val(v) <= usize::MAX {
                    Some((cursor, uint_text_val(v)))
                } else {
                    None
                }
            } else {
                Some((cursor, limit))
            }
        } else {
            Some((cursor, limit))
        };
        match next {
            None => None,
            Some(cl) => if i < q.len() {
                spec_cursor_limit(q.subrange(i + 1, q.len() as int), cl.0, cl.1)
            } else {
                Some(cl)
            },
        }
    } else {
        None
    }
}

/// A query value that would not parse.
#[derive(Debug, Clone, PartialEq, Eq)]
pub struct BadQuery {
    pub value: String,
}

/// Reads `cursor` and `limit` from the entries endpoint's query string,
/// defaulting to cursor 0 and limit 1000; a malformed number is an error.
pub fn parse_cursor_limit(query: Option<&str>) -> (r: Result<(i64, usize), BadQuery>)
    ensures
        query is None ==> (r matches Ok(cl) && cl.0 == 0 && cl.1 == 1000),
        query matches Some(q) ==> (match spec_cursor_limit(q@, 0, 1000) {
            Some(cl) => r matches Ok(x) && x.0 as int == cl.0 && x.1 as int == cl.1,
            None => r matches Err(_),
        }),
{
    let q: &str = match query {
        Some(q) => q,
        None => {
            return Ok((0, 1000));
        },
    };
    let qs = str_to_chars(q);
    let ghost whole = qs@;
    let n: usize = qs.len();
    let mut cursor: i64 = 0;
    let mut limit: usize = 1000;
    let mut pos: usize = 0;
    let key_cursor = str_to_chars("cursor");
    let key_limit = str_to_chars("limit");
    let mut done: bool = n == 0;
    proof {
        assert(whole.subrange(0, n as int) =~= whole);
        if n == 0 {
            assert(whole.subrange(0, 0) =~= Seq::<char>::empty());
            assert(find_ch(Seq::<char>::empty(), '&') == 0);
        }
    }
    while !done
        invariant
            n == whole.len(),
            (query matches Some(qq) && qq@ == whole),
            whole == q@,
            whole == qs@,
            key_cursor@ == "cursor"@,
            key_limit@ == "limit"@,
            pos <= n,
            done ==> (spec_cursor_limit(whole, 0, 1000) matches Some(cl) && cl.0
                == cursor as int && cl.1 == limit as int),
            !done ==> pos < n || (pos == 0 && n == 0),
            !done ==> spec_cursor_limit(whole, 0, 1000) == spec_cursor_limit(
                whole.subrange(pos as int, n as int),
                cursor as int,
                limit as int,
            ),
        decreases n - pos, if done {
            0int
        } else {
            1int
        },
    {
        let ghost s = whole.subrange(pos as int, n as int);
        let mut i: usize = pos;
        while i < n && qs[i] != '&'
            invariant
                pos <= i <= n,
                n == whole.len(),
                whole == qs@,
                forall|j: int| pos <= j < i ==> whole[j] != '&',
            decreases n - i,
        {
            i = i + 1;
        }
        proof {
            assert(forall|j: int| 0 <= j < i - pos ==> s[j] != '&');
            if i < n {
                assert(s[i - pos] == '&');
            }
            lemma_find_ch_at(s, '&', i - pos as int);
        }
        let part = char_range(qs.as_slice(), pos, i);
        proof {
            assert(part@ =~= s.subrange(0, i - pos as int));
        }
        match find_char(part.as_slice(), '=') {
            Some(e) => {
                proof {
                    lemma_find_ch_at(part@, '=', e as int);
                }
                let pk = char_range(part.as_slice(), 0, e);
                let pv = char_range(part.as_slice(), e + 1, part.len());
                if chars_eq(pk.as_slice(), key_cursor.as_slice()) {
                    match parse_i64_chars(pv.as_slice()) {
                        Some(c) => {
                            cursor = c;
                        },
                        None => {
                            return Err(BadQuery { value: chars_to_string(pv.as_slice()) });
                        },
                    }
                } else if chars_eq(pk.as_slice(), key_limit.as_slice()) {
                    match parse_usize_chars(pv.as_slice()) {
                        Some(l) => {
                            proof {
                                crate::numtext::lemma_digits_val_nonneg(
                                    crate::numtext::uint_body(pv@),
                                );
                            }
                            limit = l;
                        },
                        None => {
                            return Err(BadQuery { value: chars_to_string(pv.as_slice()) });
                        },
                    }
                }
            },
            None => {
                proof {
                    lemma_find_ch_at(part@, '=', part@.len() as int);
                }
            },
        }
        if i < n {
            proof {
                assert(whole.subrange(i + 1, n as int) =~= s.subrange(
                    i + 1 - pos as int,
                    s.len() as int,
                ));
            }
            pos = i + 1;
            if pos == n {
                proof {
                    assert(whole.subrange(n as int, n as int) =~= Seq::<char>::empty());
                    assert(find_ch(Seq::<char>::empty(), '&') == 0);
                }
                done = true;
            }
        } else {
            done = true;
        }
    }
    Ok((cursor, limit))
}

} // verus!
