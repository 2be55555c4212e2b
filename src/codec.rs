//! The host record and its binary layout: a little-endian field count, then each
//! field as a little-endian length and its UTF-8 bytes.
use vstd::prelude::*;
use vstd::bytes::*;
use vstd::slice::*;
use vstd::string::*;
use vstd::utf8::*;
use crate::text::{join_nums, joined, lemma_split_nums_joined, lossy_decode, lossy_text, split_nums, split_nums_spec};

verus! {

/// One host's facts: its address text, its ports, and its service blob.
#[derive(Debug, Clone)]
pub struct DatabaseResult {
    pub id: String,
    pub ports: Vec<i32>,
    pub services: String,
}

/// The mathematical form of a [`DatabaseResult`].
pub ghost struct HostRecord {
    pub id: Seq<char>,
    pub ports: Seq<i32>,
    pub services: Seq<char>,
}

impl View for DatabaseResult {
    type V = HostRecord;

    open spec fn view(&self) -> HostRecord {
        HostRecord { id: self.id@, ports: self.ports@, services: self.services@ }
    }
}

/// The comma that separates ports in their text form.
pub open spec fn comma() -> Seq<char> {
    seq![',']
}

/// The ports of a record as comma-joined decimal text.
pub open spec fn ports_text(ports: Seq<i32>) -> Seq<char> {
    joined(ports, comma())
}

/// One field: its length, then its bytes.
pub open spec fn field_bytes(b: Seq<u8>) -> Seq<u8> {
    spec_u32_to_le_bytes(b.len() as u32) + b
}

/// The two fields of a record: its port text, then its services.
pub open spec fn encoded(r: HostRecord) -> Seq<u8> {
    spec_u32_to_le_bytes(2) + field_bytes(encode_utf8(ports_text(r.ports))) + field_bytes(
        encode_utf8(r.services),
    )
}

/// The record's fields fit the 32-bit lengths of the layout.
pub open spec fn encodable(r: HostRecord) -> bool {
    encode_utf8(ports_text(r.ports)).len() <= u32::MAX && encode_utf8(r.services).len()
        <= u32::MAX
}

/// `count` fields read from `pos` on, or nothing where a length overruns `data`.
pub open spec fn read_fields(data: Seq<u8>, pos: int, count: nat) -> Option<Seq<Seq<u8>>>
    decreases count,
{
    if count == 0 {
        Some(seq![])
    } else if pos < 0 || pos + 4 > data.len() {
        None
    } else {
        let len = spec_u32_from_le_bytes(data.subrange(pos, pos + 4)) as int;
        if pos + 4 + len > data.len() {
            None
        } else {
            match read_fields(data, pos + 4 + len, (count - 1) as nat) {
                Some(rest) => Some(seq![data.subrange(pos + 4, pos + 4 + len)] + rest),
                None => None,
            }
        }
    }
}

/// The record stored under `key` with payload `data`, where the payload is whole.
pub open spec fn decoded(key: Seq<char>, data: Seq<u8>) -> Option<HostRecord> {
    if data.len() < 4 {
        None
    } else {
        let n = spec_u32_from_le_bytes(data.subrange(0, 4));
        match read_fields(data, 4, n as nat) {
            None => None,
            Some(f) => if n < 2 {
                None
            } else {
                Some(
                    HostRecord {
                        id: key,
                        ports: split_nums_spec(lossy_decode(f[0]), comma()),
                        services: lossy_decode(f[1]),
                    },
                )
            },
        }
    }
}

/// The one-line description of a record.
pub open spec fn record_line(r: HostRecord) -> Seq<char> {
    r.id + " - ports: ["@ + ports_text(r.ports) + "] services: ["@ + r.services + "]"@
}

spec fn prepend(vs: Seq<Seq<u8>>, o: Option<Seq<Seq<u8>>>) -> Option<Seq<Seq<u8>>> {
    match o {
        Some(rest) => Some(vs + rest),
        None => None,
    }
}

impl DatabaseResult {
    /// `id - ports: [p1,p2] services: [blob]`.
    pub fn to_string(&self) -> (r: String)
        ensures
            r@ == record_line(self@),
    {
        let mut r = String::from_str(self.id.as_str());
        r.append(" - ports: [");
        let p = join_nums(&self.ports, ",");
        proof {
            reveal_strlit(",");
            assert(","@ =~= comma());
        }
        r.append(p.as_str());
        r.append("] services: [");
        r.append(self.services.as_str());
        r.append("]");
        r
    }

    /// Appends the record's layout to `buf`.
    pub fn encode(&self, buf: &mut Vec<u8>)
        requires
            encodable(self@),
        ensures
            final(buf)@ == old(buf)@ + encoded(self@),
    {
        let ports = self.ports_to_string();
        let mut p = ports.as_str().as_bytes_vec();
        let mut s = self.services.as_str().as_bytes_vec();
        let mut count = u32_to_le_bytes(2);
        let mut plen = u32_to_le_bytes(p.len() as u32);
        let mut slen = u32_to_le_bytes(s.len() as u32);
        buf.append(&mut count);
        buf.append(&mut plen);
        buf.append(&mut p);
        buf.append(&mut slen);
        buf.append(&mut s);
        proof {
            assert(final(buf)@ =~= old(buf)@ + encoded(self@));
        }
    }

    /// The record stored under `key` whose payload is `data`; nothing where the
    /// payload is cut short or holds fewer than two fields.
    pub fn decode(key: &str, data: &[u8]) -> (r: Option<DatabaseResult>)
        ensures
            r.is_some() == decoded(key@, data@).is_some(),
            r.is_some() ==> r.unwrap()@ == decoded(key@, data@).unwrap(),
    {
        if data.len() < 4 {
            return None;
        }
        let n = u32_from_le_bytes(slice_subrange(data, 0, 4));
        let mut values: Vec<Vec<u8>> = Vec::new();
        let mut pos: usize = 4;
        let mut k: u32 = 0;
        while k < n
            invariant
                4 <= pos <= data@.len(),
                k <= n,
                n == spec_u32_from_le_bytes(data@.subrange(0, 4)),
                values@.len() == k,
                read_fields(data@, 4, n as nat) == prepend(
                    values@.map_values(|v: Vec<u8>| v@),
                    read_fields(data@, pos as int, (n - k) as nat),
                ),
            decreases n - k,
        {
            if data.len() - pos < 4 {
                return None;
            }
            let len = u32_from_le_bytes(slice_subrange(data, pos, pos + 4)) as usize;
            if data.len() - pos - 4 < len {
                return None;
            }
            let v = slice_to_vec(slice_subrange(data, pos + 4, pos + 4 + len));
            let ghost before = values@.map_values(|v: Vec<u8>| v@);
            values.push(v);
            proof {
                let rest = read_fields(data@, (pos + 4 + len) as int, (n - k - 1) as nat);
                assert(values@.map_values(|v: Vec<u8>| v@) =~= before.push(v@));
                match rest {
                    Some(x) => {
                        assert(before + (seq![v@] + x) =~= before.push(v@) + x);
                    },
                    None => {},
                }
            }
            pos = pos + 4 + len;
            k = k + 1;
        }
        if n < 2 {
            return None;
        }
        proof {
            assert(values@.map_values(|v: Vec<u8>| v@) + Seq::<Seq<u8>>::empty() =~= values@.map_values(
                |v: Vec<u8>| v@,
            ));
        }
        let ports_text = lossy_text(values[0].as_slice());
        let services = lossy_text(values[1].as_slice());
        proof {
            reveal_strlit(",");
            assert(","@ =~= comma());
        }
        let ports = split_nums(ports_text.as_str(), ",");
        Some(DatabaseResult { id: String::from_str(key), ports, services })
    }

    /// The ports as comma-joined decimal text.
    pub fn ports_to_string(&self) -> (r: String)
        ensures
            r@ == ports_text(self.ports@),
    {
        proof {
            reveal_strlit(",");
            assert(","@ =~= comma());
        }
        join_nums(&self.ports, ",")
    }
}

/// Decoding a record's own layout under its own key gives the record back.
pub proof fn lemma_codec_round_trip(r: HostRecord)
    requires
        encodable(r),
    ensures
        decoded(r.id, encoded(r)) == Some(r),
{
    lemma_auto_spec_u32_to_from_le_bytes();
    let pb = encode_utf8(ports_text(r.ports));
    let sb = encode_utf8(r.services);
    let data = encoded(r);
    let p0: int = 8 + pb.len() as int;
    let e: int = p0 + 4 + sb.len() as int;
    assert(data.subrange(0, 4) =~= spec_u32_to_le_bytes(2));
    assert(data.subrange(4, 8) =~= spec_u32_to_le_bytes(pb.len() as u32));
    assert(data.subrange(8, p0) =~= pb);
    assert(data.subrange(p0, p0 + 4) =~= spec_u32_to_le_bytes(sb.len() as u32));
    assert(data.subrange(p0 + 4, e) =~= sb);
    assert(read_fields(data, e, 0) == Some(Seq::<Seq<u8>>::empty()));
    assert(seq![sb] + Seq::<Seq<u8>>::empty() =~= seq![sb]);
    assert(read_fields(data, p0, 1) == Some(seq![sb]));
    assert(read_fields(data, 4, 2) == Some(seq![pb] + seq![sb]));
    let f = seq![pb] + seq![sb];
    assert(f[0] == pb && f[1] == sb);
    encode_utf8_valid_utf8(ports_text(r.ports));
    encode_utf8_decode_utf8(ports_text(r.ports));
    encode_utf8_valid_utf8(r.services);
    encode_utf8_decode_utf8(r.services);
    lemma_split_nums_joined(r.ports);
}

} // verus!
