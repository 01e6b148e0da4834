use crate::common::{
    decode_spec, error_line, error_response, get_line, get_response, ping_line, ping_response,
    scan_line, scan_response, write_line, write_response, Cmd, CmdView,
};
use crate::engines::kvs::{keys_in_range, values_at, views, KvStore};
use crate::error::KvsError;
use vstd::prelude::*;

verus! {

/// What the live map answers to a lookup.
pub open spec fn lookup(m: Map<Seq<char>, Seq<char>>, k: Seq<char>) -> Result<
    Option<Seq<char>>,
    KvsError,
> {
    if m.contains_key(k) {
        Ok(Some(m[k]))
    } else {
        Ok(None)
    }
}

/// The response line `r` and the live map `after` are what a request `c`
/// (or the error of a payload that does not decode) yields on the live map `before`.
pub open spec fn served(
    before: Map<Seq<char>, Seq<char>>,
    after: Map<Seq<char>, Seq<char>>,
    c: Result<CmdView, KvsError>,
    r: Seq<u8>,
) -> bool {
    match c {
        Err(e) => r == error_line(e) && after == before,
        Ok(CmdView::Get(k)) => r == get_line(lookup(before, k)) && after == before,
        Ok(CmdView::VGet(k)) => r == get_line(lookup(before, k)) && after == before,
        Ok(CmdView::SetKey(k, v, _)) => r == write_line(Ok(())) && after == before.insert(k, v),
        Ok(CmdView::VSet(k, v, _)) => r == write_line(Ok(())) && after == before.insert(k, v),
        Ok(CmdView::Remove(k)) => removed(before, after, k, r),
        Ok(CmdView::VDel(k)) => removed(before, after, k, r),
        Ok(CmdView::Scan(a, b)) => after == before && scanned(before, a, b, r),
        Ok(CmdView::Ping(m)) => r == ping_line(m) && after == before,
    }
}

/// `r` answers a scan from `a` to `b` with the values of those keys, in key order.
pub open spec fn scanned(m: Map<Seq<char>, Seq<char>>, a: Seq<char>, b: Seq<char>, r: Seq<u8>) -> bool {
    exists|ks: Seq<Seq<char>>|
        #[trigger] keys_in_range(ks, m, a, b) && r == scan_line(Ok(values_at(ks, m)))
}

/// The outcome of removing `k`.
pub open spec fn removed(
    before: Map<Seq<char>, Seq<char>>,
    after: Map<Seq<char>, Seq<char>>,
    k: Seq<char>,
    r: Seq<u8>,
) -> bool {
    if before.contains_key(k) {
        r == write_line(Ok(())) && after == before.remove(k)
    } else {
        r == write_line(Err(KvsError::KeyNotFound)) && after == before
    }
}

/// Serves one request: decodes the payload whose declared length is `len`,
/// runs it against the store and returns the response line. A payload that
/// does not decode is answered with an error and changes nothing.
pub fn handle_frame(store: &mut KvStore, len: u32, payload: Vec<u8>) -> (r: Vec<u8>)
    requires
        old(store).wf(),
    ensures
        final(store).wf(),
        served(old(store).live(), final(store).live(), decode_spec(len, payload@), r@),
{
    let ghost before = store.live();
    let ghost cv = decode_spec(len, payload@);
    let r = match Cmd::decode(len, payload) {
        Err(e) => error_response(&e),
        Ok(Cmd::Get(c)) => {
            let o = store.get(c.key);
            let r = get_response(&o);
            assert(r@ == get_line(lookup(before, c.key@)));
            r
        },
        Ok(Cmd::VGet(c)) => {
            let o = store.get(c.key);
            let r = get_response(&o);
            assert(r@ == get_line(lookup(before, c.key@)));
            r
        },
        Ok(Cmd::SetKey(c)) => write_response(&store.set(c.key, c.value)),
        Ok(Cmd::VSet(c)) => write_response(&store.set(c.key, c.value)),
        Ok(Cmd::Remove(c)) => write_response(&store.remove(c.key)),
        Ok(Cmd::VDel(c)) => write_response(&store.remove(c.key)),
        Ok(Cmd::Scan(c)) => {
            let o = store.scan(c.start, c.end);
            let r = scan_response(&o);
            proof {
                let vs = o->Ok_0;
                let ks = choose|ks: Seq<Seq<char>>|
                    #[trigger] keys_in_range(ks, before, c.start@, c.end@) && views(vs@)
                        == values_at(ks, before);
                assert(vs@.map_values(|v: String| v@) == views(vs@));
                assert(keys_in_range(ks, before, c.start@, c.end@));
                assert(cv == Ok::<CmdView, KvsError>(CmdView::Scan(c.start@, c.end@)));
                assert(store.live() == before);
                assert(r@ == scan_line(Ok(values_at(ks, before))));
                assert(scanned(before, c.start@, c.end@, r@));
                assert(served(before, store.live(), cv, r@));
            }
            r
        },
        Ok(Cmd::Ping(c)) => ping_response(&c.message),
    };
    r
}

} // verus!
