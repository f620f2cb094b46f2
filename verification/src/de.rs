use vstd::prelude::*;

use crate::error::Error;
use crate::major_type::head_bytes;
use crate::minor_type::{minor_numeric, minor_value, spec_size, MinorType};
use crate::owned::{height, items_bytes, items_height, wf, wf_items, wire_bytes, OwnedValue};
use crate::parse::{
    items_match_at, lemma_items_split, lemma_sp_head_of_head_bytes, lemma_wire_shape, match_at,
    parse_item, same_item, same_items, sp_head, wire_major, wire_minor, DEFAULT_RECURSION_LIMIT,
};
use crate::value::{
    convertible, items_convertible, lemma_same_items_convertible, lemma_same_items_values_model,
    value_models, values_model, Value,
};
use vstd::utf8::valid_utf8;

verus! {

/// Reads items until the input is used up, appending them to `acc`.
fn decode_all_from(b: &[u8], pos: usize, acc: Vec<OwnedValue>) -> (r: Result<
    Vec<OwnedValue>,
    Error,
>)
    requires
        pos <= b@.len(),
    ensures
        (r matches Ok(els) ==> els@.len() >= acc@.len() && els@.subrange(0, acc@.len() as int)
            == acc@ && wf_items(els@.skip(acc@.len() as int)) && items_height(
            els@.skip(acc@.len() as int),
        ) <= DEFAULT_RECURSION_LIMIT && b@.subrange(pos as int, b@.len() as int) == items_bytes(
            els@.skip(acc@.len() as int),
        )),
        forall|ws: Seq<OwnedValue>|
            (#[trigger] items_match_at(b@, pos as int, ws)) && pos + items_bytes(ws).len()
                == b@.len() && items_height(ws) <= DEFAULT_RECURSION_LIMIT ==> (r matches Ok(els)
                && els@.len() == acc@.len() + ws.len() && els@.subrange(0, acc@.len() as int)
                == acc@ && same_items(els@.skip(acc@.len() as int), ws)),
    decreases b@.len() - pos,
{
    if pos == b.len() {
        proof {
            assert(acc@.subrange(0, acc@.len() as int) =~= acc@);
            assert(acc@.skip(acc@.len() as int) =~= Seq::<OwnedValue>::empty());
            assert(b@.subrange(pos as int, b@.len() as int) =~= Seq::<u8>::empty());
            assert forall|ws: Seq<OwnedValue>|
                (#[trigger] items_match_at(b@, pos as int, ws)) && pos + items_bytes(ws).len()
                    == b@.len() && items_height(ws) <= DEFAULT_RECURSION_LIMIT implies ws.len()
                == 0 by {
                if ws.len() > 0 {
                    lemma_items_split(b@, pos as int, ws);
                    lemma_wire_shape(b@, pos as int, ws[0]);
                }
            }
        }
        return Ok(acc);
    }
    match parse_item(b, pos, DEFAULT_RECURSION_LIMIT) {
        Err(e) => {
            proof {
                assert forall|ws: Seq<OwnedValue>|
                    (#[trigger] items_match_at(b@, pos as int, ws)) && pos + items_bytes(ws).len()
                        == b@.len() && items_height(ws) <= DEFAULT_RECURSION_LIMIT implies false
                    by {
                    if ws.len() == 0 {
                        assert(items_bytes(ws).len() == 0);
                    } else {
                        lemma_items_split(b@, pos as int, ws);
                        assert(match_at(b@, pos as int, ws[0]));
                    }
                }
            }
            Err(e)
        }
        Ok((v, p1)) => {
            let ghost accv = acc@;
            let mut acc2 = acc;
            acc2.push(v);
            match decode_all_from(b, p1, acc2) {
                Err(e) => {
                    proof {
                        assert forall|ws: Seq<OwnedValue>|
                            (#[trigger] items_match_at(b@, pos as int, ws)) && pos + items_bytes(
                                ws,
                            ).len() == b@.len() && items_height(ws)
                                <= DEFAULT_RECURSION_LIMIT implies false by {
                            if ws.len() == 0 {
                                assert(items_bytes(ws).len() == 0);
                            } else {
                                lemma_items_split(b@, pos as int, ws);
                                assert(match_at(b@, pos as int, ws[0]));
                                assert(items_match_at(b@, p1 as int, ws.drop_first()));
                            }
                        }
                    }
                    Err(e)
                }
                Ok(els) => {
                    proof {
                        let al = accv.len() as int;
                        let tail = els@.skip(al);
                        assert(els@.subrange(0, al + 1) == accv.push(v));
                        assert forall|j: int| 0 <= j < al implies els@[j] == accv[j] by {
                            assert(els@.subrange(0, al + 1)[j] == els@[j]);
                            assert(accv.push(v)[j] == accv[j]);
                        }
                        assert(els@.subrange(0, al) =~= accv);
                        assert(els@[al] == v) by {
                            assert(els@.subrange(0, al + 1)[al] == els@[al]);
                            assert(accv.push(v)[al] == v);
                        }
                        assert(tail.len() >= 1);
                        assert(tail[0] == v);
                        assert(tail.drop_first() =~= els@.skip(al + 1));
                        assert(wf_items(tail));
                        assert(items_height(tail) <= DEFAULT_RECURSION_LIMIT);
                        assert(b@.subrange(pos as int, b@.len() as int) =~= b@.subrange(
                            pos as int,
                            p1 as int,
                        ) + b@.subrange(p1 as int, b@.len() as int));
                        assert(items_bytes(tail) == wire_bytes(v) + items_bytes(
                            tail.drop_first(),
                        ));
                        assert(b@.subrange(pos as int, b@.len() as int) == items_bytes(tail));
                        assert forall|ws: Seq<OwnedValue>|
                            (#[trigger] items_match_at(b@, pos as int, ws)) && pos + items_bytes(
                                ws,
                            ).len() == b@.len() && items_height(ws)
                                <= DEFAULT_RECURSION_LIMIT implies same_items(tail, ws) by {
                            if ws.len() == 0 {
                                assert(items_bytes(ws).len() == 0);
                                assert(false);
                            } else {
                                lemma_items_split(b@, pos as int, ws);
                                assert(match_at(b@, pos as int, ws[0]));
                                assert(same_item(v, ws[0]));
                                assert(items_match_at(b@, p1 as int, ws.drop_first()));
                                assert(p1 + items_bytes(ws.drop_first()).len() == b@.len());
                                assert(same_items(els@.skip(al + 1), ws.drop_first()));
                                assert(same_items(tail, ws));
                            }
                        }
                    }
                    Ok(els)
                }
            }
        }
    }
}

/// Reads a whole sequence of top-level items, one after the other, until
/// the input is used up. Fed the concatenation of the encodings of any
/// run of well-formed items within the nesting limit, it yields exactly
/// those items, in order.
pub fn decode_all(bytes: &[u8]) -> (r: Result<Vec<OwnedValue>, Error>)
    ensures
        (r matches Ok(els) ==> wf_items(els@) && items_bytes(els@) == bytes@),
        forall|ws: Seq<OwnedValue>|
            (#[trigger] items_match_at(bytes@, 0, ws)) && items_bytes(ws).len() == bytes@.len()
                && items_height(ws) <= DEFAULT_RECURSION_LIMIT ==> (r matches Ok(els)
                && same_items(els@, ws)),
{
    match decode_all_from(bytes, 0, Vec::new()) {
        Ok(els) => {
            proof {
                assert(els@.skip(0) =~= els@);
                assert(bytes@.subrange(0, bytes@.len() as int) =~= bytes@);
            }
            Ok(els)
        }
        Err(e) => {
            proof {
                assert forall|ws: Seq<OwnedValue>|
                    (#[trigger] items_match_at(bytes@, 0, ws)) && items_bytes(ws).len()
                        == bytes@.len() && items_height(ws)
                        <= DEFAULT_RECURSION_LIMIT implies false by {}
            }
            Err(e)
        }
    }
}

/// Decodes a run of top-level items one at a time, keeping the byte
/// offset where each item started.
pub struct StreamDecoder<'a> {
    bytes: &'a [u8],
    pos: usize,
}

impl<'a> StreamDecoder<'a> {
    /// The input being decoded.
    pub closed spec fn src(&self) -> Seq<u8> {
        self.bytes@
    }

    /// The offset of the next item.
    pub closed spec fn spec_offset(&self) -> int {
        self.pos as int
    }

    /// Starts a stream decoder at the front of the input.
    pub fn new(bytes: &'a [u8]) -> (r: StreamDecoder<'a>)
        ensures
            r.src() == bytes@,
            r.spec_offset() == 0,
    {
        StreamDecoder { bytes, pos: 0 }
    }

    /// The byte offset where the next item will start.
    pub fn offset(&self) -> (r: usize)
        ensures
            r == self.spec_offset(),
    {
        self.pos
    }

    /// Reads the next top-level item, together with the offset where it
    /// started. Yields nothing once the input is used up cleanly; on an
    /// error the offset stays where the offending item began.
    pub fn next_item(&mut self) -> (r: Option<Result<(OwnedValue, usize), Error>>)
        ensures
            final(self).src() == old(self).src(),
            old(self).spec_offset() >= old(self).src().len() ==> ((r is None)
                && final(self).spec_offset() == old(self).spec_offset()),
            (r matches Some(Ok((v, start))) ==> wf(v) && start == old(self).spec_offset()
                && final(self).spec_offset() == start + wire_bytes(v).len() && old(
                self,
            ).src().subrange(start as int, final(self).spec_offset()) == wire_bytes(v)),
            (r matches Some(Err(e)) ==> final(self).spec_offset() == old(self).spec_offset()),
            forall|w: OwnedValue|
                (#[trigger] match_at(old(self).src(), old(self).spec_offset(), w)) && height(w)
                    <= DEFAULT_RECURSION_LIMIT ==> (r matches Some(Ok((v, start))) && same_item(
                    v,
                    w,
                ) && start == old(self).spec_offset()),
    {
        if self.pos >= self.bytes.len() {
            proof {
                assert forall|w: OwnedValue|
                    (#[trigger] match_at(old(self).src(), old(self).spec_offset(), w)) && height(w)
                        <= DEFAULT_RECURSION_LIMIT implies false by {
                    lemma_wire_shape(old(self).src(), old(self).spec_offset(), w);
                }
            }
            return None;
        }
        let start = self.pos;
        match parse_item(self.bytes, start, DEFAULT_RECURSION_LIMIT) {
            Ok((v, n)) => {
                self.pos = n;
                Some(Ok((v, start)))
            }
            Err(e) => Some(Err(e)),
        }
    }
}

/// Decodes dynamic values from a buffer, one call at a time, and can
/// check that the input was fully used.
pub struct Deserializer<'a> {
    bytes: &'a [u8],
    pos: usize,
}

impl<'a> Deserializer<'a> {
    /// The input being decoded.
    pub closed spec fn src(&self) -> Seq<u8> {
        self.bytes@
    }

    /// The offset of the next item.
    pub closed spec fn spec_offset(&self) -> int {
        self.pos as int
    }

    /// Starts decoding at the front of the input.
    pub fn new(bytes: &'a [u8]) -> (r: Deserializer<'a>)
        ensures
            r.src() == bytes@,
            r.spec_offset() == 0,
    {
        Deserializer { bytes, pos: 0 }
    }

    /// Decodes the next dynamic value. Failures keep the offset where
    /// the offending item began and carry the error kind its shape calls
    /// for.
    pub fn value(&mut self) -> (r: Result<Value, Error>)
        ensures
            final(self).src() == old(self).src(),
            (r matches Ok(v) ==> exists|w: OwnedValue|
                match_at(old(self).src(), old(self).spec_offset(), w) && #[trigger] value_models(
                    v,
                    w,
                ) && final(self).spec_offset() == old(self).spec_offset() + wire_bytes(w).len()),
            (r is Err ==> final(self).spec_offset() == old(self).spec_offset()),
            forall|w: OwnedValue|
                (#[trigger] match_at(old(self).src(), old(self).spec_offset(), w)) && height(w)
                    <= DEFAULT_RECURSION_LIMIT && convertible(w) ==> (r matches Ok(v)
                    && value_models(v, w)),
            (sp_head(old(self).src(), old(self).spec_offset()) matches Err(e) ==> r == Err::<
                Value,
                Error,
            >(e)),
            (sp_head(old(self).src(), old(self).spec_offset()) matches Ok((mj, m, p)) && mj == 3
                && minor_numeric(m) && p + minor_value(m) <= old(self).src().len() && !valid_utf8(
                old(self).src().subrange(p, p + minor_value(m)),
            ) ==> r == Err::<Value, Error>(Error::InvalidUtf8)),
            forall|w: OwnedValue|
                (#[trigger] match_at(old(self).src(), old(self).spec_offset(), w)) && height(w)
                    > DEFAULT_RECURSION_LIMIT ==> r == Err::<Value, Error>(Error::RecursionLimit),
    {
        if self.pos > self.bytes.len() {
            return Err(Error::UnexpectedEof);
        }
        match parse_item(self.bytes, self.pos, DEFAULT_RECURSION_LIMIT) {
            Ok((pv, n)) => {
                let r = crate::value::convert_item(&pv);
                proof {
                    assert forall|w: OwnedValue|
                        (#[trigger] match_at(old(self).src(), old(self).spec_offset(), w))
                            && height(w) <= DEFAULT_RECURSION_LIMIT && convertible(w) implies (
                    r matches Ok(v) && value_models(v, w)) by {
                        assert(same_item(pv, w));
                        crate::value::lemma_same_item_convertible(pv, w);
                        match r {
                            Ok(v) => {
                                crate::value::lemma_same_item_value_models(pv, w, v);
                            }
                            Err(_) => {}
                        }
                    }
                }
                match r {
                    Ok(v) => {
                        self.pos = n;
                        proof {
                            assert(match_at(old(self).src(), old(self).spec_offset(), pv)
                                && value_models(v, pv));
                        }
                        Ok(v)
                    }
                    Err(e) => Err(e),
                }
            }
            Err(e) => {
                proof {
                    assert forall|w: OwnedValue|
                        (#[trigger] match_at(old(self).src(), old(self).spec_offset(), w))
                            && height(w) <= DEFAULT_RECURSION_LIMIT && convertible(
                            w,
                        ) implies false by {}
                }
                Err(e)
            }
        }
    }

    /// Checks that every input byte was decoded: the whole point of a
    /// single-document read. Fails with trailing bytes otherwise.
    pub fn end(&self) -> (r: Result<(), Error>)
        ensures
            (r is Ok) == (self.spec_offset() == self.src().len()),
            r is Err ==> r == Err::<(), Error>(Error::TrailingBytes),
    {
        if self.pos == self.bytes.len() {
            Ok(())
        } else {
            Err(Error::TrailingBytes)
        }
    }
}

/// Bytes that claim to be a definite-length text string but do not hold
/// valid UTF-8 carry no item at all: no well-formed item matches them,
/// so every decode of them fails.
pub proof fn lemma_invalid_utf8_text_rejected(b: Seq<u8>, s: Seq<u8>)
    requires
        s.len() < 0x10000000000000000,
        b == head_bytes(3, spec_size(s.len() as u64)) + s,
        !valid_utf8(s),
    ensures
        forall|w: OwnedValue| !match_at(b, 0, w),
{
    let m = spec_size(s.len() as u64);
    let hd = head_bytes(3, m);
    let hlen = hd.len() as int;
    crate::minor_type::lemma_spec_size_value(s.len() as u64);
    assert forall|w: OwnedValue| !match_at(b, 0, w) by {
        if match_at(b, 0, w) {
            lemma_wire_shape(b, 0, w);
            assert(b.subrange(0, hlen) =~= hd);
            lemma_sp_head_of_head_bytes(b, 0, 3, m);
            assert(wire_major(w) == 3 && wire_minor(w) == m);
            match w {
                OwnedValue::Text(mw, c) => {
                    assert(c@.len() == minor_value(m));
                    assert(wire_bytes(w).len() == hlen + c@.len());
                    assert(crate::parse::wire_payload(w) == c@);
                    assert(b.subrange(hlen, hlen + c@.len() as int) == c@);
                    assert(b.subrange(hlen, hlen + s.len() as int) =~= s);
                    assert(valid_utf8(s));
                    assert(false);
                }
                _ => {
                    assert(false);
                }
            }
        }
    }
}


/// Reads a whole sequence of top-level items and converts each into a
/// dynamic value. Fed the concatenation of the encodings of any run of
/// well-formed, convertible items within the nesting limit, it yields
/// exactly those items' values, in order.
pub fn decode_all_values(bytes: &[u8]) -> (r: Result<Vec<Value>, Error>)
    ensures
        forall|ws: Seq<OwnedValue>|
            (#[trigger] items_match_at(bytes@, 0, ws)) && items_bytes(ws).len() == bytes@.len()
                && items_height(ws) <= DEFAULT_RECURSION_LIMIT && items_convertible(ws) ==> (
            r matches Ok(vs) && values_model(vs@, ws)),
{
    match decode_all(bytes) {
        Ok(els) => {
            let r = crate::value::convert_items(&els);
            proof {
                assert forall|ws: Seq<OwnedValue>|
                    (#[trigger] items_match_at(bytes@, 0, ws)) && items_bytes(ws).len()
                        == bytes@.len() && items_height(ws) <= DEFAULT_RECURSION_LIMIT
                        && items_convertible(ws) implies (r matches Ok(vs) && values_model(
                    vs@,
                    ws,
                )) by {
                    assert(same_items(els@, ws));
                    lemma_same_items_convertible(els@, ws);
                    match r {
                        Ok(vs) => {
                            lemma_same_items_values_model(els@, ws, vs@);
                        }
                        Err(_) => {}
                    }
                }
            }
            r
        }
        Err(e) => {
            proof {
                assert forall|ws: Seq<OwnedValue>|
                    (#[trigger] items_match_at(bytes@, 0, ws)) && items_bytes(ws).len()
                        == bytes@.len() && items_height(ws) <= DEFAULT_RECURSION_LIMIT
                        && items_convertible(ws) implies false by {}
            }
            Err(e)
        }
    }
}

} // verus!
