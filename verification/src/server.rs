//! The pure logic behind the query service's configuration: the listening
//! port stored in the settings table, its decimal text form, and the URL a
//! client is told to reach.

use vstd::prelude::*;

use crate::parser::{is_digit, is_digit_char};
use crate::store::{find_key, LogDatabase, StoreError};

verus! {

/// The well-known default port of the query service.
pub const SERVER_PORT: u16 = 8727;

/// The character of one decimal digit value.
pub open spec fn digit_char(d: int) -> char {
    ((48 + d) as u8) as char
}

pub open spec fn all_digits(s: Seq<char>) -> bool {
    forall|i: int| 0 <= i < s.len() ==> is_digit(#[trigger] s[i])
}

/// The numeric value of a digit string, most significant digit first.
pub open spec fn dec_val(s: Seq<char>) -> int
    decreases s.len(),
{
    if s.len() == 0 {
        0
    } else {
        dec_val(s.drop_last()) * 10 + (s.last() as u32 - 48)
    }
}

/// The canonical decimal text of a non-negative number.
pub open spec fn dec_str(n: int) -> Seq<char>
    decreases n,
{
    if n < 10 {
        seq![digit_char(if n < 0 {
            0
        } else {
            n
        })]
    } else {
        dec_str(n / 10).push(digit_char(n % 10))
    }
}

/// The digits of a port setting's text: a single leading `'+'` is allowed.
pub open spec fn port_digits(s: Seq<char>) -> Seq<char> {
    if s.len() > 0 && s[0] == '+' {
        s.skip(1)
    } else {
        s
    }
}

/// Whether a setting's text is a well-formed port: at least one digit, all
/// digits, and a value that fits.
pub open spec fn is_port_str(s: Seq<char>) -> bool {
    &&& port_digits(s).len() > 0
    &&& all_digits(port_digits(s))
    &&& dec_val(port_digits(s)) <= 65535
}

/// The port a stored setting resolves to: its value when it is a
/// well-formed port, the default otherwise or when nothing is stored.
pub open spec fn port_of_setting(v: Option<Seq<char>>) -> int {
    match v {
        Some(s) => if is_port_str(s) {
            dec_val(port_digits(s))
        } else {
            SERVER_PORT as int
        },
        None => SERVER_PORT as int,
    }
}

/// The port setting of a store, when one is stored.
pub open spec fn stored_port_view(db: &LogDatabase) -> Option<Seq<char>> {
    let f = find_key(db.settings_view(), "port"@);
    if f >= 0 {
        Some(db.settings_view()[f].value@)
    } else {
        None
    }
}

pub proof fn lemma_dec_val_nonneg(s: Seq<char>)
    requires
        all_digits(s),
    ensures
        dec_val(s) >= 0,
    decreases s.len(),
{
    if s.len() != 0 {
        assert forall|i: int| 0 <= i < s.drop_last().len() implies is_digit(
            #[trigger] s.drop_last()[i],
        ) by {
            assert(s.drop_last()[i] == s[i]);
        }
        lemma_dec_val_nonneg(s.drop_last());
    }
}

/// A digit string's value never falls below the value of any of its
/// prefixes.
pub proof fn lemma_dec_val_prefix_le(s: Seq<char>, i: int)
    requires
        all_digits(s),
        0 <= i <= s.len(),
    ensures
        dec_val(s.take(i)) <= dec_val(s),
    decreases s.len() - i,
{
    if i == s.len() {
        assert(s.take(i) =~= s);
    } else {
        lemma_dec_val_prefix_le(s, i + 1);
        assert(s.take(i + 1).drop_last() =~= s.take(i));
        assert(s.take(i + 1).last() == s[i]);
        assert forall|k: int| 0 <= k < s.take(i).len() implies is_digit(
            #[trigger] s.take(i)[k],
        ) by {
            assert(s.take(i)[k] == s[k]);
        }
        lemma_dec_val_nonneg(s.take(i));
        assert(dec_val(s.take(i + 1)) == dec_val(s.take(i)) * 10 + (s[i] as u32 - 48));
        assert(dec_val(s.take(i)) * 10 >= dec_val(s.take(i)));
    }
}

/// Parse a port number: accepted iff the text is an optional `'+'` followed
/// by digits whose value fits in a port.
pub fn parse_port(s: &str) -> (r: Option<u16>)
    ensures
        is_port_str(s@) ==> (r matches Some(p) && p as int == dec_val(port_digits(s@))),
        !is_port_str(s@) ==> r is None,
{
    let n = s.unicode_len();
    if n == 0 {
        return None;
    }
    let start: usize = if s.get_char(0) == '+' {
        1
    } else {
        0
    };
    let ghost d = port_digits(s@);
    proof {
        if start == 0 {
            assert(d =~= s@.skip(0));
            assert(d =~= s@);
        }
    }
    if start == n {
        return None;
    }
    let mut val: u32 = 0;
    let mut i: usize = start;
    proof {
        assert(d.take(0) =~= Seq::<char>::empty());
    }
    while i < n
        invariant
            start <= i <= n,
            n == s@.len(),
            start == 1 ==> (n >= 1 && s@[0] == '+'),
            start == 0 ==> (n == 0 || s@[0] != '+'),
            d == port_digits(s@),
            d.len() == n - start,
            forall|k: int| 0 <= k < i - start ==> d[k] == s@[k + start] && is_digit(#[trigger] d[k]),
            val as int == dec_val(d.take(i - start)),
            val <= 65535,
        decreases n - i,
    {
        let c = s.get_char(i);
        proof {
            assert(d[i as int - start] == s@[i as int]);
        }
        if !is_digit_char(c) {
            proof {
                assert(!is_digit(d[i as int - start]));
            }
            return None;
        }
        let dv = (c as u32) - 48;
        let nv = val * 10 + dv;
        proof {
            assert(d.take(i as int - start + 1).drop_last() =~= d.take(i as int - start));
            assert(d.take(i as int - start + 1).last() == d[i as int - start]);
            assert(dec_val(d.take(i as int - start + 1)) == nv);
        }
        if nv > 65535 {
            proof {
                if all_digits(d) {
                    lemma_dec_val_prefix_le(d, i as int - start + 1);
                }
            }
            return None;
        }
        val = nv;
        i += 1;
    }
    proof {
        assert(d.take(n as int - start) =~= d);
        assert forall|k: int| 0 <= k < d.len() implies is_digit(#[trigger] d[k]) by {}
    }
    Some(val as u16)
}

/// A decimal digit as a one-character string.
fn digit_str(dv: u16) -> (s: &'static str)
    requires
        dv < 10,
    ensures
        s@ == seq![digit_char(dv as int)],
{
    let s = match dv {
        0 => "0",
        1 => "1",
        2 => "2",
        3 => "3",
        4 => "4",
        5 => "5",
        6 => "6",
        7 => "7",
        8 => "8",
        _ => "9",
    };
    proof {
        reveal_strlit("0");
        reveal_strlit("1");
        reveal_strlit("2");
        reveal_strlit("3");
        reveal_strlit("4");
        reveal_strlit("5");
        reveal_strlit("6");
        reveal_strlit("7");
        reveal_strlit("8");
        reveal_strlit("9");
        assert(s@ =~= seq![digit_char(dv as int)]);
    }
    s
}

/// Append the canonical decimal text of `n`.
pub fn push_dec(n: u16, out: &mut String)
    ensures
        final(out)@ == old(out)@ + dec_str(n as int),
    decreases n,
{
    if n >= 10 {
        proof {
            assert(n / 10 < n) by (nonlinear_arith)
                requires
                    n >= 10,
            ;
        }
        push_dec(n / 10, out);
        let ghost mid = out@;
        out.append(digit_str(n % 10));
        proof {
            assert(dec_str(n as int) =~= dec_str(n as int / 10).push(digit_char(n as int % 10)));
            assert(out@ =~= old(out)@ + dec_str(n as int));
        }
    } else {
        out.append(digit_str(n));
        proof {
            assert(out@ =~= old(out)@ + dec_str(n as int));
        }
    }
}

/// The decimal text of a port.
pub fn port_to_string(p: u16) -> (s: String)
    ensures
        s@ == dec_str(p as int),
{
    let mut out = String::new();
    push_dec(p, &mut out);
    proof {
        assert(Seq::<char>::empty() + dec_str(p as int) =~= dec_str(p as int));
    }
    out
}

/// The port the service listens on: the stored setting when it is a
/// well-formed port, the default otherwise.
pub fn get_server_port(db: &LogDatabase) -> (p: u16)
    ensures
        p as int == port_of_setting(stored_port_view(db)),
{
    match db.get_setting("port") {
        Ok(v) => match parse_port(v.as_str()) {
            Some(p) => p,
            None => SERVER_PORT,
        },
        Err(_) => SERVER_PORT,
    }
}

/// Store the port the service is to listen on, as its decimal text under
/// the `port` key. The reserved port zero is refused and nothing changes.
pub fn set_server_port(db: &mut LogDatabase, port: u16) -> (r: Result<(), StoreError>)
    requires
        old(db).wf(),
    ensures
        final(db).wf(),
        port == 0 ==> r == Err::<(), StoreError>(StoreError::InvalidPort) && *final(db) == *old(
            db,
        ),
        port != 0 ==> {
            &&& r == Ok::<(), StoreError>(())
            &&& final(db).rows_view() == old(db).rows_view()
            &&& final(db).next_id_view() == old(db).next_id_view()
            &&& stored_port_view(final(db)) == Some(dec_str(port as int))
        },
{
    if port == 0 {
        return Err(StoreError::InvalidPort);
    }
    let text = port_to_string(port);
    db.set_setting("port", text.as_str());
    proof {
        let ghost os = old(db).settings_view();
        let ghost ns = db.settings_view();
        let f = find_key(os, "port"@);
        crate::store::lemma_find_key_props(os, "port"@);
        if f >= 0 {
            assert forall|k: int| 0 <= k < f implies ns[k].key@ != "port"@ by {
                assert(ns[k] == os[k]);
                assert(os[k].key@ != "port"@) by {
                    if os[k].key@ == "port"@ {
                        crate::store::lemma_find_key_char(os, "port"@, k);
                    }
                }
            }
            crate::store::lemma_find_key_char(ns, "port"@, f);
        } else {
            assert forall|k: int| 0 <= k < ns.len() - 1 implies ns[k].key@ != "port"@ by {
                assert(ns[k] == os[k]);
            }
            assert(ns[ns.len() - 1].key@ == "port"@);
            crate::store::lemma_find_key_char(ns, "port"@, ns.len() - 1);
        }
    }
    Ok(())
}

/// The URL under which the query service is reachable on the given local
/// address.
pub fn get_server_url(ip: &str, port: u16) -> (url: String)
    ensures
        url@ == "http://"@ + ip@ + ":"@ + dec_str(port as int),
{
    let mut out = String::from_str("http://");
    out.append(ip);
    out.append(":");
    push_dec(port, &mut out);
    proof {
        assert(out@ =~= "http://"@ + ip@ + ":"@ + dec_str(port as int));
    }
    out
}

/// Law: storing a port and resolving it afterwards yields that port: its
/// canonical decimal text is a well-formed port setting with its own value.
pub proof fn lemma_port_round_trip(p: u16)
    ensures
        port_of_setting(Some(dec_str(p as int))) == p as int,
{
    lemma_dec_str_digits(p as int);
    lemma_dec_val_of_dec_str(p as int);
    assert(dec_str(p as int)[0] != '+') by {
        assert(is_digit(dec_str(p as int)[0]));
        if dec_str(p as int)[0] == '+' {
            assert(dec_str(p as int)[0] as u32 == 43);
        }
    }
    assert(port_digits(dec_str(p as int)) == dec_str(p as int));
}

/// The canonical decimal text holds digits alone, at least one.
pub proof fn lemma_dec_str_digits(n: int)
    requires
        n >= 0,
    ensures
        dec_str(n).len() >= 1,
        all_digits(dec_str(n)),
    decreases n,
{
    if n < 10 {
        assert(is_digit(digit_char(n)));
    } else {
        assert(n / 10 < n && n / 10 >= 0) by (nonlinear_arith)
            requires
                n >= 10,
        ;
        lemma_dec_str_digits(n / 10);
        assert(0 <= n % 10 < 10);
        assert(is_digit(digit_char(n % 10)));
        assert forall|i: int| 0 <= i < dec_str(n).len() implies is_digit(
            #[trigger] dec_str(n)[i],
        ) by {
            if i < dec_str(n).len() - 1 {
                assert(dec_str(n)[i] == dec_str(n / 10)[i]);
            }
        }
    }
}

/// The canonical decimal text evaluates back to its number.
pub proof fn lemma_dec_val_of_dec_str(n: int)
    requires
        n >= 0,
    ensures
        dec_val(dec_str(n)) == n,
    decreases n,
{
    let s = dec_str(n);
    if n < 10 {
        assert(s =~= seq![digit_char(n)]);
        assert(s.len() == 1);
        assert(s.drop_last() =~= Seq::<char>::empty());
        assert(dec_val(s.drop_last()) == 0);
        assert(s.last() == digit_char(n));
        assert(digit_char(n) as u32 == 48 + n);
        assert(dec_val(s) == dec_val(s.drop_last()) * 10 + (s.last() as u32 - 48));
    } else {
        assert(n / 10 < n && n / 10 >= 0) by (nonlinear_arith)
            requires
                n >= 10,
        ;
        lemma_dec_val_of_dec_str(n / 10);
        assert(s == dec_str(n / 10).push(digit_char(n % 10)));
        assert(s.len() == dec_str(n / 10).len() + 1);
        assert(s.drop_last() =~= dec_str(n / 10));
        assert(s.last() == digit_char(n % 10));
        assert(digit_char(n % 10) as u32 == 48 + n % 10);
        assert(dec_val(s) == dec_val(s.drop_last()) * 10 + (s.last() as u32 - 48));
        assert(n / 10 * 10 + n % 10 == n);
    }
}

} // verus!
