//! Manifest-based binary containers.
//!
//! A container frames an opaque payload together with a manifest: magic
//! bytes, a big-endian format version, a big-endian metadata length, the
//! manifest as JSON, then the raw payload.  The manifest's size and
//! content-hash fields are recomputed from the payload on every encode,
//! and decoding checks the header before trusting any embedded length.
//!
//! Encoding always writes one compact canonical JSON form, so a manifest's
//! text is a function of its fields and framing round-trips exactly.
//! Decoding reads that canonical form directly and hands every other text
//! to the general reader in [`crate::reader`], which accepts the wire
//! format's full grammar: any key order, any whitespace, standard escapes,
//! absent optional keys defaulted.

use vstd::prelude::*;

use crate::json::{
    dec_str, jstring, lemma_dec_align, lemma_jstring_align, append_dec, append_jstring,
    expect_lit, parse_dec_at, parse_jstring_at,
};
use crate::text::{digit_str, hex_char};

verus! {

/// Format version written into every container.
pub const MANIFEST_VERSION: u16 = 1;

/// Hard ceiling on the encoded manifest block, in bytes.
pub const MAX_MANIFEST_SIZE: usize = 65536;

/// Bytes of the fixed header: magic (4), version (2), metadata length (4).
pub const HEADER_SIZE: usize = 10;

/// The four magic bytes `SYNM` that prefix every container.
pub open spec fn magic_seq() -> Seq<u8> {
    seq![83u8, 89u8, 78u8, 77u8]
}

/// Supported MIME-like payload types.
#[derive(Debug, Clone, Copy, PartialEq, Eq, Structural)]
pub enum DataType {
    Unknown,
    Text,
    Json,
    Binary,
}

impl DataType {
    /// The wire name of the type.
    pub open spec fn spec_str(self) -> Seq<char> {
        match self {
            DataType::Unknown => "unknown"@,
            DataType::Text => "text/plain"@,
            DataType::Json => "application/json"@,
            DataType::Binary => "application/octet-stream"@,
        }
    }

    /// The wire name of the type.
    pub fn as_str(self) -> (r: &'static str)
        ensures
            r@ == self.spec_str(),
    {
        match self {
            DataType::Unknown => "unknown",
            DataType::Text => "text/plain",
            DataType::Json => "application/json",
            DataType::Binary => "application/octet-stream",
        }
    }
}

impl Default for DataType {
    /// The default payload type is `Unknown`.
    fn default() -> (r: DataType)
        ensures
            r == DataType::Unknown,
    {
        DataType::Unknown
    }
}

/// Errors of container encoding and decoding.
#[derive(Debug)]
pub enum ManifestError {
    /// The first four bytes are not the magic.
    InvalidMagic,
    /// The manifest block is larger than the ceiling; carries its size.
    ManifestTooLarge(usize),
    /// The buffer is shorter than the header, or than the declared layout.
    DataTooSmall,
    /// The manifest block is not UTF-8, or the surrounding storage failed.
    Io,
    /// The manifest block is not canonical manifest JSON.
    Json,
}

/// A metadata value: a JSON string, decoded, or any other JSON value,
/// carried as the text it was read from (and written back verbatim), so
/// that numbers, booleans, arrays and nested objects survive a round trip
/// without the library modeling their structure.
#[derive(Debug, Clone, PartialEq)]
pub enum MetaValue {
    /// A JSON string value.
    Str(String),
    /// Any other JSON value, as its source text.
    Raw(String),
}

/// The JSON text of a metadata value.
pub open spec fn meta_val_text(v: MetaValue) -> Seq<char> {
    match v {
        MetaValue::Str(s) => jstring(s@),
        MetaValue::Raw(t) => t@,
    }
}

/// Whether every metadata value is a string — the shape the compact
/// canonical encoding is proved to round-trip; other values go through the
/// general reader.
pub open spec fn compact_metadata(es: Seq<(String, MetaValue)>) -> bool {
    forall|i: int| 0 <= i < es.len() ==> (#[trigger] es[i]).1 is Str
}

/// The manifest: identifier, format version, origin node, payload type,
/// payload size and hash, and free-form metadata as ordered key/value
/// entries.
#[derive(Debug, Clone)]
pub struct Manifest {
    pub id: String,
    pub version: u16,
    pub node: String,
    pub data_type: String,
    pub data_size: usize,
    pub data_hash: String,
    pub metadata: Vec<(String, MetaValue)>,
}

pub open spec fn key_id() -> Seq<char> {
    seq!['{', '"', 'i', 'd', '"', ':']
}

pub open spec fn key_version() -> Seq<char> {
    seq![',', '"', 'v', 'e', 'r', 's', 'i', 'o', 'n', '"', ':']
}

pub open spec fn key_node() -> Seq<char> {
    seq![',', '"', 'n', 'o', 'd', 'e', '"', ':']
}

pub open spec fn key_data_type() -> Seq<char> {
    seq![',', '"', 'd', 'a', 't', 'a', '_', 't', 'y', 'p', 'e', '"', ':']
}

pub open spec fn key_data_size() -> Seq<char> {
    seq![',', '"', 'd', 'a', 't', 'a', '_', 's', 'i', 'z', 'e', '"', ':']
}

pub open spec fn key_data_hash() -> Seq<char> {
    seq![',', '"', 'd', 'a', 't', 'a', '_', 'h', 'a', 's', 'h', '"', ':']
}

pub open spec fn key_metadata() -> Seq<char> {
    seq![',', '"', 'm', 'e', 't', 'a', 'd', 'a', 't', 'a', '"', ':', '{']
}

/// The metadata entries as JSON object members.
pub open spec fn meta_json(entries: Seq<(String, MetaValue)>) -> Seq<char>
    decreases entries.len(),
{
    if entries.len() == 0 {
        Seq::empty()
    } else {
        let head = jstring(entries[0].0@) + seq![':'] + meta_val_text(entries[0].1);
        if entries.len() == 1 {
            head
        } else {
            head + seq![','] + meta_json(entries.skip(1))
        }
    }
}

/// The canonical JSON text of a manifest: one flat object in fixed key
/// order, the metadata object present only when it has entries.
pub open spec fn manifest_tail(m: Manifest) -> Seq<char> {
    if m.metadata@.len() == 0 {
        seq!['}']
    } else {
        key_metadata() + (meta_json(m.metadata@) + seq!['}', '}'])
    }
}

pub open spec fn manifest_json(m: Manifest) -> Seq<char> {
    key_id() + (jstring(m.id@) + (key_version() + (dec_str(m.version as nat) + (key_node()
        + (jstring(m.node@) + (key_data_type() + (jstring(m.data_type@) + (key_data_size()
        + (dec_str(m.data_size as nat) + (key_data_hash() + (jstring(m.data_hash@)
        + manifest_tail(m))))))))))))
}

/// Equal sequences with an equal prefix have equal remainders.
pub proof fn lemma_cancel_prefix(p: Seq<char>, a: Seq<char>, b: Seq<char>)
    requires
        p + a == p + b,
    ensures
        a == b,
{
    assert(a =~= (p + a).skip(p.len() as int));
    assert(b =~= (p + b).skip(p.len() as int));
}

/// Whether a text is the canonical encoding of some manifest.
pub open spec fn is_canonical_manifest_json(data: Seq<char>) -> bool {
    exists|m: Manifest| compact_metadata(m.metadata@) && data == #[trigger] manifest_json(m)
}

/// The manifest a canonical text encodes (arbitrary when none does).
pub open spec fn canonical_source(data: Seq<char>) -> Manifest {
    choose|m: Manifest| compact_metadata(m.metadata@) && data == #[trigger] manifest_json(m)
}

/// Adding an entry extends the member list at its end.
pub proof fn lemma_meta_push(es: Seq<(String, MetaValue)>, e: (String, MetaValue))
    ensures
        meta_json(es.push(e)) == if es.len() == 0 {
            jstring(e.0@) + seq![':'] + meta_val_text(e.1)
        } else {
            meta_json(es) + seq![','] + (jstring(e.0@) + seq![':'] + meta_val_text(e.1))
        },
    decreases es.len(),
{
    let enc = jstring(e.0@) + seq![':'] + meta_val_text(e.1);
    if es.len() == 0 {
        assert(es.push(e)[0] == e);
        assert(meta_json(es.push(e)) == enc);
    } else {
        lemma_meta_push(es.skip(1), e);
        assert(es.push(e).skip(1) =~= es.skip(1).push(e));
        assert(es.push(e)[0] == es[0]);
        let head = jstring(es[0].0@) + seq![':'] + meta_val_text(es[0].1);
        if es.len() == 1 {
            assert(es.skip(1).len() == 0);
            assert(meta_json(es.push(e)) == head + seq![','] + meta_json(es.skip(1).push(e)));
            assert(meta_json(es) == head);
        } else {
            assert(meta_json(es.push(e)) == head + seq![','] + meta_json(es.skip(1).push(e)));
            assert(meta_json(es.skip(1).push(e)) == meta_json(es.skip(1)) + seq![','] + enc);
            assert(head + seq![','] + (meta_json(es.skip(1)) + seq![','] + enc)
                =~= (head + seq![','] + meta_json(es.skip(1))) + seq![','] + enc);
        }
    }
}

/// The canonical text flattened left to right: the key/value chunks in
/// order, then the closing of the object.
pub proof fn lemma_manifest_json_parts(m: Manifest)
    ensures
        m.metadata@.len() == 0 ==> manifest_json(m) == key_id() + jstring(m.id@) + key_version()
            + dec_str(m.version as nat) + key_node() + jstring(m.node@) + key_data_type()
            + jstring(m.data_type@) + key_data_size() + dec_str(m.data_size as nat)
            + key_data_hash() + jstring(m.data_hash@) + seq!['}'],
        m.metadata@.len() > 0 ==> manifest_json(m) == key_id() + jstring(m.id@) + key_version()
            + dec_str(m.version as nat) + key_node() + jstring(m.node@) + key_data_type()
            + jstring(m.data_type@) + key_data_size() + dec_str(m.data_size as nat)
            + key_data_hash() + jstring(m.data_hash@) + key_metadata() + meta_json(m.metadata@)
            + seq!['}', '}'],
{
    let k1 = key_id();
    let a = jstring(m.id@);
    let k2 = key_version();
    let b = dec_str(m.version as nat);
    let k3 = key_node();
    let c = jstring(m.node@);
    let k4 = key_data_type();
    let d = jstring(m.data_type@);
    let k5 = key_data_size();
    let e = dec_str(m.data_size as nat);
    let k6 = key_data_hash();
    let f = jstring(m.data_hash@);
    let t = manifest_tail(m);
    let r12 = f + t;
    let r11 = k6 + r12;
    let r10 = e + r11;
    let r9 = k5 + r10;
    let r8 = d + r9;
    let r7 = k4 + r8;
    let r6 = c + r7;
    let r5 = k3 + r6;
    let r4 = b + r5;
    let r3 = k2 + r4;
    let r2 = a + r3;
    assert(manifest_json(m) == k1 + r2);
    crate::json::lemma_seq_assoc(k1, a, r3);
    crate::json::lemma_seq_assoc(k1 + a, k2, r4);
    crate::json::lemma_seq_assoc(k1 + a + k2, b, r5);
    crate::json::lemma_seq_assoc(k1 + a + k2 + b, k3, r6);
    crate::json::lemma_seq_assoc(k1 + a + k2 + b + k3, c, r7);
    crate::json::lemma_seq_assoc(k1 + a + k2 + b + k3 + c, k4, r8);
    crate::json::lemma_seq_assoc(k1 + a + k2 + b + k3 + c + k4, d, r9);
    crate::json::lemma_seq_assoc(k1 + a + k2 + b + k3 + c + k4 + d, k5, r10);
    crate::json::lemma_seq_assoc(k1 + a + k2 + b + k3 + c + k4 + d + k5, e, r11);
    crate::json::lemma_seq_assoc(k1 + a + k2 + b + k3 + c + k4 + d + k5 + e, k6, r12);
    crate::json::lemma_seq_assoc(k1 + a + k2 + b + k3 + c + k4 + d + k5 + e + k6, f, t);
    let core = k1 + a + k2 + b + k3 + c + k4 + d + k5 + e + k6 + f;
    assert(manifest_json(m) == core + t);
    if m.metadata@.len() > 0 {
        crate::json::lemma_seq_assoc(core, key_metadata(), meta_json(m.metadata@) + seq!['}', '}']);
        crate::json::lemma_seq_assoc(core + key_metadata(), meta_json(m.metadata@), seq!['}', '}']);
    }
}

impl Manifest {
    /// A fresh manifest with the given identifier and every other field at
    /// its default.
    pub fn new(id: &str) -> (r: Manifest)
        ensures
            r.id@ == id@,
            r.version == MANIFEST_VERSION,
            r.node@ == Seq::<char>::empty(),
            r.data_type@ == "unknown"@,
            r.data_size == 0,
            r.data_hash@ == Seq::<char>::empty(),
            r.metadata@.len() == 0,
    {
        Manifest {
            id: id.to_owned(),
            version: MANIFEST_VERSION,
            node: String::new(),
            data_type: String::from_str("unknown"),
            data_size: 0,
            data_hash: String::new(),
            metadata: Vec::new(),
        }
    }

    /// Serializes the manifest to its canonical JSON text; never fails.
    #[verifier::rlimit(100)]
    pub fn to_json(&self) -> (r: Result<String, ManifestError>)
        ensures
            r matches Ok(j) && j@ == manifest_json(*self),
    {
        proof {
            reveal_strlit("{\"id\":");
            reveal_strlit(",\"version\":");
            reveal_strlit(",\"node\":");
            reveal_strlit(",\"data_type\":");
            reveal_strlit(",\"data_size\":");
            reveal_strlit(",\"data_hash\":");
            reveal_strlit(",\"metadata\":{");
            reveal_strlit("}");
            reveal_strlit("}}");
            assert("{\"id\":"@ =~= key_id());
            assert(",\"version\":"@ =~= key_version());
            assert(",\"node\":"@ =~= key_node());
            assert(",\"data_type\":"@ =~= key_data_type());
            assert(",\"data_size\":"@ =~= key_data_size());
            assert(",\"data_hash\":"@ =~= key_data_hash());
            assert(",\"metadata\":{"@ =~= key_metadata());
            assert("}"@ =~= seq!['}']);
            assert("}}"@ =~= seq!['}', '}']);
        }
        let mut out = String::new();
        proof {
            assert(Seq::<char>::empty() + key_id() =~= key_id());
        }
        out.append("{\"id\":");
        append_jstring(&mut out, self.id.as_str());
        out.append(",\"version\":");
        append_dec(&mut out, self.version as u64);
        out.append(",\"node\":");
        append_jstring(&mut out, self.node.as_str());
        out.append(",\"data_type\":");
        append_jstring(&mut out, self.data_type.as_str());
        out.append(",\"data_size\":");
        append_dec(&mut out, self.data_size as u64);
        out.append(",\"data_hash\":");
        append_jstring(&mut out, self.data_hash.as_str());
        if self.metadata.len() == 0 {
            out.append("}");
        } else {
            out.append(",\"metadata\":{");
            append_meta(&mut out, &self.metadata, 0);
            out.append("}}");
            proof {
                assert(self.metadata@.skip(0) =~= self.metadata@);
            }
        }
        proof {
            lemma_manifest_json_parts(*self);
            assert(out@ == manifest_json(*self));
        }
        Ok(out)
    }

    /// Parses the identifier, version and node fields at the head of the
    /// canonical text.
    #[verifier::rlimit(100)]
    fn parse_head1(data: &str) -> (r: Result<(String, u16, String, usize), ManifestError>)
        ensures
            r matches Ok(t) ==> t.3 <= data@.len()
                && data@.subrange(0, t.3 as int) == key_id() + jstring(t.0@) + key_version()
                    + dec_str(t.1 as nat) + key_node() + jstring(t.2@),
            r matches Ok(t) ==> (is_canonical_manifest_json(data@)
                ==> data@.subrange(t.3 as int, data@.len() as int)
                    == key_data_type() + (jstring(canonical_source(data@).data_type@)
                        + (key_data_size() + (dec_str(canonical_source(data@).data_size as nat)
                        + (key_data_hash() + (jstring(canonical_source(data@).data_hash@)
                        + manifest_tail(canonical_source(data@)))))))),
            r is Err ==> !is_canonical_manifest_json(data@),
            r is Err ==> (r matches Err(e) && e is Json),
    {
        proof {
            reveal_strlit("{\"id\":");
            reveal_strlit(",\"version\":");
            reveal_strlit(",\"node\":");
            assert("{\"id\":"@ =~= key_id());
            assert(",\"version\":"@ =~= key_version());
            assert(",\"node\":"@ =~= key_node());
        }
        let n = data.unicode_len();
        let ghost canon = is_canonical_manifest_json(data@);
        let ghost mc = canonical_source(data@);
        let ghost g6 = key_data_type() + (jstring(mc.data_type@) + (key_data_size()
            + (dec_str(mc.data_size as nat) + (key_data_hash() + (jstring(mc.data_hash@)
            + manifest_tail(mc))))));
        let ghost g5 = jstring(mc.node@) + g6;
        let ghost g4 = key_node() + g5;
        let ghost g3 = dec_str(mc.version as nat) + g4;
        let ghost g2 = key_version() + g3;
        let ghost g1 = jstring(mc.id@) + g2;
        proof {
            if canon {
                assert(data@ == manifest_json(mc));
                assert(data@ =~= data@.subrange(0, n as int));
                assert(data@.subrange(0, n as int) == key_id() + g1);
                crate::json::lemma_take_prefix(data@, 0, key_id(), g1);
            }
        }
        let p0 = match expect_lit(data, 0, "{\"id\":") {
            Some(p) => p,
            None => {
                proof {
                    if canon {
                        assert(false);
                    }
                }
                return Err(ManifestError::Json);
            },
        };
        let (id, p1) = match parse_jstring_at(data, p0) {
            Some(v) => v,
            None => {
                proof {
                    if canon {
                        crate::json::lemma_take_prefix(data@, p0 as int, jstring(mc.id@), g2);
                        assert(false);
                    }
                }
                return Err(ManifestError::Json);
            },
        };
        proof {
            crate::json::lemma_subrange_cat(data@, 0, p0 as int, p1 as int);
            assert(data@.subrange(0, p1 as int) == key_id() + jstring(id@));
            if canon {
                crate::json::lemma_subrange_cat(data@, p0 as int, p1 as int, n as int);
                lemma_jstring_align(id@, mc.id@, data@.subrange(p1 as int, n as int), g2);
            }
        }
        let p2 = match expect_lit(data, p1, ",\"version\":") {
            Some(p) => p,
            None => {
                proof {
                    if canon {
                        crate::json::lemma_take_prefix(data@, p1 as int, key_version(), g3);
                        assert(false);
                    }
                }
                return Err(ManifestError::Json);
            },
        };
        proof {
            if canon {
                crate::json::lemma_take_prefix(data@, p1 as int, key_version(), g3);
            }
        }
        let (version64, p3) = match parse_dec_at(data, p2) {
            Some(v) => v,
            None => {
                proof {
                    if canon {
                        crate::json::lemma_take_prefix(
                            data@, p2 as int, dec_str(mc.version as nat), g4,
                        );
                        let j = p2 + dec_str(mc.version as nat).len();
                        assert(data@.subrange(j as int, n as int)[0] == data@[j as int]);
                        assert(g4[0] == ',');
                        assert(false);
                    }
                }
                return Err(ManifestError::Json);
            },
        };
        proof {
            if canon {
                crate::json::lemma_subrange_cat(data@, p2 as int, p3 as int, n as int);
                if p3 < n {
                    assert(data@.subrange(p3 as int, n as int)[0] == data@[p3 as int]);
                }
                assert(g4[0] == ',');
                lemma_dec_align(
                    version64 as nat, mc.version as nat,
                    data@.subrange(p3 as int, n as int), g4,
                );
            }
        }
        if version64 > 65535 {
            proof {
                if canon {
                    assert(false);
                }
            }
            return Err(ManifestError::Json);
        }
        let p4 = match expect_lit(data, p3, ",\"node\":") {
            Some(p) => p,
            None => {
                proof {
                    if canon {
                        crate::json::lemma_take_prefix(data@, p3 as int, key_node(), g5);
                        assert(false);
                    }
                }
                return Err(ManifestError::Json);
            },
        };
        proof {
            if canon {
                crate::json::lemma_take_prefix(data@, p3 as int, key_node(), g5);
            }
        }
        let (node, p5) = match parse_jstring_at(data, p4) {
            Some(v) => v,
            None => {
                proof {
                    if canon {
                        crate::json::lemma_take_prefix(data@, p4 as int, jstring(mc.node@), g6);
                        assert(false);
                    }
                }
                return Err(ManifestError::Json);
            },
        };
        proof {
            crate::json::lemma_subrange_cat(data@, 0, p1 as int, p2 as int);
            crate::json::lemma_subrange_cat(data@, 0, p2 as int, p3 as int);
            crate::json::lemma_subrange_cat(data@, 0, p3 as int, p4 as int);
            crate::json::lemma_subrange_cat(data@, 0, p4 as int, p5 as int);
            if canon {
                crate::json::lemma_subrange_cat(data@, p4 as int, p5 as int, n as int);
                lemma_jstring_align(node@, mc.node@, data@.subrange(p5 as int, n as int), g6);
            }
        }
        Ok((id, version64 as u16, node, p5))
    }

    /// Parses the payload type, size and hash fields that follow the node.
    #[verifier::rlimit(100)]
    fn parse_head2(data: &str, p5: usize) -> (r: Result<(String, usize, String, usize), ManifestError>)
        requires
            p5 <= data@.len(),
            is_canonical_manifest_json(data@) ==> data@.subrange(p5 as int, data@.len() as int)
                == key_data_type() + (jstring(canonical_source(data@).data_type@)
                    + (key_data_size() + (dec_str(canonical_source(data@).data_size as nat)
                    + (key_data_hash() + (jstring(canonical_source(data@).data_hash@)
                    + manifest_tail(canonical_source(data@))))))),
        ensures
            r matches Ok(t) ==> p5 <= t.3 <= data@.len()
                && data@.subrange(p5 as int, t.3 as int) == key_data_type() + jstring(t.0@)
                    + key_data_size() + dec_str(t.1 as nat) + key_data_hash() + jstring(t.2@),
            r matches Ok(t) ==> (is_canonical_manifest_json(data@)
                ==> data@.subrange(t.3 as int, data@.len() as int)
                    == manifest_tail(canonical_source(data@))),
            r is Err ==> !is_canonical_manifest_json(data@),
            r is Err ==> (r matches Err(e) && e is Json),
    {
        proof {
            reveal_strlit(",\"data_type\":");
            reveal_strlit(",\"data_size\":");
            reveal_strlit(",\"data_hash\":");
            assert(",\"data_type\":"@ =~= key_data_type());
            assert(",\"data_size\":"@ =~= key_data_size());
            assert(",\"data_hash\":"@ =~= key_data_hash());
        }
        let n = data.unicode_len();
        let ghost canon = is_canonical_manifest_json(data@);
        let ghost mc = canonical_source(data@);
        let ghost g11 = jstring(mc.data_hash@) + manifest_tail(mc);
        let ghost g10 = key_data_hash() + g11;
        let ghost g9 = dec_str(mc.data_size as nat) + g10;
        let ghost g8 = key_data_size() + g9;
        let ghost g7 = jstring(mc.data_type@) + g8;
        proof {
            if canon {
                crate::json::lemma_take_prefix(data@, p5 as int, key_data_type(), g7);
            }
        }
        let p6 = match expect_lit(data, p5, ",\"data_type\":") {
            Some(p) => p,
            None => {
                proof {
                    if canon {
                        assert(false);
                    }
                }
                return Err(ManifestError::Json);
            },
        };
        let (data_type, p7) = match parse_jstring_at(data, p6) {
            Some(v) => v,
            None => {
                proof {
                    if canon {
                        crate::json::lemma_take_prefix(
                            data@, p6 as int, jstring(mc.data_type@), g8,
                        );
                        assert(false);
                    }
                }
                return Err(ManifestError::Json);
            },
        };
        proof {
            crate::json::lemma_subrange_cat(data@, p5 as int, p6 as int, p7 as int);
            if canon {
                crate::json::lemma_subrange_cat(data@, p6 as int, p7 as int, n as int);
                lemma_jstring_align(
                    data_type@, mc.data_type@, data@.subrange(p7 as int, n as int), g8,
                );
            }
        }
        let p8 = match expect_lit(data, p7, ",\"data_size\":") {
            Some(p) => p,
            None => {
                proof {
                    if canon {
                        crate::json::lemma_take_prefix(data@, p7 as int, key_data_size(), g9);
                        assert(false);
                    }
                }
                return Err(ManifestError::Json);
            },
        };
        proof {
            if canon {
                crate::json::lemma_take_prefix(data@, p7 as int, key_data_size(), g9);
            }
        }
        let (size64, p9) = match parse_dec_at(data, p8) {
            Some(v) => v,
            None => {
                proof {
                    if canon {
                        crate::json::lemma_take_prefix(
                            data@, p8 as int, dec_str(mc.data_size as nat), g10,
                        );
                        let j = p8 + dec_str(mc.data_size as nat).len();
                        assert(data@.subrange(j as int, n as int)[0] == data@[j as int]);
                        assert(g10[0] == ',');
                        assert(false);
                    }
                }
                return Err(ManifestError::Json);
            },
        };
        proof {
            if canon {
                crate::json::lemma_subrange_cat(data@, p8 as int, p9 as int, n as int);
                if p9 < n {
                    assert(data@.subrange(p9 as int, n as int)[0] == data@[p9 as int]);
                }
                assert(g10[0] == ',');
                lemma_dec_align(
                    size64 as nat, mc.data_size as nat,
                    data@.subrange(p9 as int, n as int), g10,
                );
            }
        }
        if size64 > usize::MAX as u64 {
            proof {
                if canon {
                    assert(false);
                }
            }
            return Err(ManifestError::Json);
        }
        let p10 = match expect_lit(data, p9, ",\"data_hash\":") {
            Some(p) => p,
            None => {
                proof {
                    if canon {
                        crate::json::lemma_take_prefix(data@, p9 as int, key_data_hash(), g11);
                        assert(false);
                    }
                }
                return Err(ManifestError::Json);
            },
        };
        proof {
            if canon {
                crate::json::lemma_take_prefix(data@, p9 as int, key_data_hash(), g11);
            }
        }
        let (data_hash, p11) = match parse_jstring_at(data, p10) {
            Some(v) => v,
            None => {
                proof {
                    if canon {
                        crate::json::lemma_take_prefix(
                            data@, p10 as int, jstring(mc.data_hash@), manifest_tail(mc),
                        );
                        assert(false);
                    }
                }
                return Err(ManifestError::Json);
            },
        };
        proof {
            crate::json::lemma_subrange_cat(data@, p5 as int, p7 as int, p8 as int);
            crate::json::lemma_subrange_cat(data@, p5 as int, p8 as int, p9 as int);
            crate::json::lemma_subrange_cat(data@, p5 as int, p9 as int, p10 as int);
            crate::json::lemma_subrange_cat(data@, p5 as int, p10 as int, p11 as int);
            if canon {
                crate::json::lemma_subrange_cat(data@, p10 as int, p11 as int, n as int);
                lemma_jstring_align(
                    data_hash@, mc.data_hash@,
                    data@.subrange(p11 as int, n as int), manifest_tail(mc),
                );
            }
        }
        Ok((data_type, size64 as usize, data_hash, p11))
    }

    /// Parses the six fixed fields at the head of the canonical text, up to
    /// (not including) the closing of the object or the metadata key.
    #[verifier::rlimit(100)]
    fn parse_head(data: &str) -> (r: Result<(Manifest, usize), ManifestError>)
        ensures
            r matches Ok(t) ==> t.1 <= data@.len() && t.0.metadata@.len() == 0
                && data@.subrange(0, t.1 as int) == key_id() + jstring(t.0.id@) + key_version()
                    + dec_str(t.0.version as nat) + key_node() + jstring(t.0.node@)
                    + key_data_type() + jstring(t.0.data_type@) + key_data_size()
                    + dec_str(t.0.data_size as nat) + key_data_hash() + jstring(t.0.data_hash@),
            r matches Ok(t) ==> (is_canonical_manifest_json(data@)
                ==> data@.subrange(t.1 as int, data@.len() as int)
                    == manifest_tail(canonical_source(data@))),
            r is Err ==> !is_canonical_manifest_json(data@),
            r is Err ==> (r matches Err(e) && e is Json),
    {
        let (id, version, node, p5) = match Self::parse_head1(data) {
            Ok(t) => t,
            Err(e) => {
                return Err(e);
            },
        };
        let (data_type, data_size, data_hash, p11) = match Self::parse_head2(data, p5) {
            Ok(t) => t,
            Err(e) => {
                return Err(e);
            },
        };
        let m = Manifest {
            id,
            version,
            node,
            data_type,
            data_size,
            data_hash,
            metadata: Vec::new(),
        };
        proof {
            crate::json::lemma_subrange_cat(data@, 0, p5 as int, p11 as int);
            let a = key_id() + jstring(m.id@) + key_version() + dec_str(m.version as nat)
                + key_node() + jstring(m.node@);
            let b1 = key_data_type();
            let b2 = jstring(m.data_type@);
            let b3 = key_data_size();
            let b4 = dec_str(m.data_size as nat);
            let b5 = key_data_hash();
            let b6 = jstring(m.data_hash@);
            assert(data@.subrange(0, p11 as int) == a + (b1 + b2 + b3 + b4 + b5 + b6));
            crate::json::lemma_seq_assoc(a, b1 + b2 + b3 + b4 + b5, b6);
            crate::json::lemma_seq_assoc(a, b1 + b2 + b3 + b4, b5);
            crate::json::lemma_seq_assoc(a, b1 + b2 + b3, b4);
            crate::json::lemma_seq_assoc(a, b1 + b2, b3);
            crate::json::lemma_seq_assoc(a, b1, b2);
            assert(data@.subrange(0, p11 as int)
                == a + b1 + b2 + b3 + b4 + b5 + b6);
        }
        Ok((m, p11))
    }

    /// Reads the compact canonical text this library's encoder emits:
    /// whatever comes back serializes to the input, and every canonical
    /// text is accepted.
    #[verifier::rlimit(100)]
    #[verifier::spinoff_prover]
    fn parse_canonical_text(data: &str) -> (r: Result<Manifest, ManifestError>)
        ensures
            r matches Ok(m) ==> data@ == manifest_json(m),
            r is Ok <==> is_canonical_manifest_json(data@),
            r is Err ==> (r matches Err(e) && e is Json),
    {
        proof {
            reveal_strlit(",\"metadata\":{");
            reveal_strlit("}");
            reveal_strlit("}}");
            reveal_strlit(":");
            reveal_strlit(",");
            assert(",\"metadata\":{"@ =~= key_metadata());
            assert("}"@ =~= seq!['}']);
            assert("}}"@ =~= seq!['}', '}']);
            assert(":"@ =~= seq![':']);
            assert(","@ =~= seq![',']);
        }
        let n = data.unicode_len();
        let ghost canon = is_canonical_manifest_json(data@);
        let ghost mc = canonical_source(data@);
        let (mut m, p11) = match Self::parse_head(data) {
            Ok(t) => t,
            Err(e) => {
                return Err(e);
            },
        };
        if let Some(pe) = expect_lit(data, p11, "}") {
            if pe == n {
                proof {
                    crate::json::lemma_subrange_cat(data@, 0, p11 as int, pe as int);
                    assert(data@ =~= data@.subrange(0, n as int));
                    lemma_manifest_json_parts(m);
                    assert(data@ == manifest_json(m));
                    assert(is_canonical_manifest_json(data@)) by {
                        assert(data@ == manifest_json(m));
                    }
                }
                return Ok(m);
            }
            proof {
                if canon {
                    if mc.metadata@.len() == 0 {
                        assert(data@.subrange(p11 as int, n as int) == seq!['}']);
                        assert(n - p11 == 1);
                    } else {
                        crate::json::lemma_take_prefix(
                            data@, p11 as int, key_metadata(),
                            meta_json(mc.metadata@) + seq!['}', '}'],
                        );
                        assert(data@.subrange(p11 as int, p11 + 1)[0] == data@[p11 as int]);
                        assert(data@.subrange(p11 as int, p11 + 13)[0] == data@[p11 as int]);
                        assert(data@[p11 as int] == '}');
                        assert(data@[p11 as int] == ',');
                    }
                    assert(false);
                }
            }
            return Err(ManifestError::Json);
        }
        let pm = match expect_lit(data, p11, ",\"metadata\":{") {
            Some(p) => p,
            None => {
                proof {
                    if canon {
                        if mc.metadata@.len() == 0 {
                            assert(data@.subrange(p11 as int, n as int) == seq!['}']);
                            assert(data@.subrange(p11 as int, p11 + 1) =~= seq!['}']);
                        } else {
                            crate::json::lemma_take_prefix(
                                data@, p11 as int, key_metadata(),
                                meta_json(mc.metadata@) + seq!['}', '}'],
                            );
                        }
                        assert(false);
                    }
                }
                return Err(ManifestError::Json);
            },
        };
        proof {
            crate::json::lemma_subrange_cat(data@, 0, p11 as int, pm as int);
            if canon {
                if mc.metadata@.len() == 0 {
                    assert(data@.subrange(p11 as int, n as int) == seq!['}']);
                    assert(data@.subrange(p11 as int, p11 + 1) =~= seq!['}']);
                    assert(false);
                }
                crate::json::lemma_take_prefix(
                    data@, p11 as int, key_metadata(),
                    meta_json(mc.metadata@) + seq!['}', '}'],
                );
                assert(mc.metadata@.skip(0) =~= mc.metadata@);
            }
        }
        let mut pos = pm;
        loop
            invariant
                pos <= n,
                n == data@.len(),
                m.metadata@.len() == 0 ==> data@.subrange(0, pos as int)
                    == key_id() + jstring(m.id@) + key_version() + dec_str(m.version as nat)
                        + key_node() + jstring(m.node@) + key_data_type() + jstring(m.data_type@)
                        + key_data_size() + dec_str(m.data_size as nat) + key_data_hash()
                        + jstring(m.data_hash@) + key_metadata(),
                m.metadata@.len() > 0 ==> data@.subrange(0, pos as int)
                    == key_id() + jstring(m.id@) + key_version() + dec_str(m.version as nat)
                        + key_node() + jstring(m.node@) + key_data_type() + jstring(m.data_type@)
                        + key_data_size() + dec_str(m.data_size as nat) + key_data_hash()
                        + jstring(m.data_hash@) + key_metadata() + meta_json(m.metadata@)
                        + seq![','],
                compact_metadata(m.metadata@),
                is_canonical_manifest_json(data@) ==> (
                    (m.metadata@.len() as int) < canonical_source(data@).metadata@.len()
                    && data@.subrange(pos as int, n as int) == meta_json(
                        canonical_source(data@).metadata@.skip(m.metadata@.len() as int),
                    ) + seq!['}', '}']
                ),
            decreases n - pos,
        {
            let ghost canl = is_canonical_manifest_json(data@);
            let ghost mcl = canonical_source(data@);
            let ghost i0 = m.metadata@.len() as int;
            let ghost es = mcl.metadata@.skip(i0);
            let ghost vv = es[0].1->Str_0;
            let ghost enc0 = jstring(es[0].0@) + seq![':'] + jstring(vv@);
            let ghost after0 = if es.len() == 1 {
                seq!['}', '}']
            } else {
                seq![','] + meta_json(es.skip(1)) + seq!['}', '}']
            };
            proof {
                reveal_strlit(":");
                reveal_strlit(",");
                reveal_strlit("}}");
                assert(":"@ =~= seq![':']);
                assert(","@ =~= seq![',']);
                assert("}}"@ =~= seq!['}', '}']);
                if canl {
                    assert(compact_metadata(mcl.metadata@) && data@ == manifest_json(mcl));
                    assert(es.len() > 0);
                    assert(es[0] == mcl.metadata@[i0]);
                    assert(es[0].1 is Str);
                    assert(meta_val_text(es[0].1) == jstring(vv@));
                    if es.len() == 1 {
                        assert(meta_json(es) == enc0);
                        crate::json::lemma_seq_assoc(
                            jstring(es[0].0@) + seq![':'], jstring(vv@), seq!['}', '}'],
                        );
                        crate::json::lemma_seq_assoc(
                            jstring(es[0].0@), seq![':'],
                            jstring(vv@) + seq!['}', '}'],
                        );
                        assert(data@.subrange(pos as int, n as int) == jstring(es[0].0@)
                            + (seq![':'] + (jstring(vv@) + seq!['}', '}'])));
                    } else {
                        assert(meta_json(es) == enc0 + seq![','] + meta_json(es.skip(1)));
                        crate::json::lemma_seq_assoc(
                            enc0 + seq![','], meta_json(es.skip(1)), seq!['}', '}'],
                        );
                        crate::json::lemma_seq_assoc(
                            enc0, seq![','], meta_json(es.skip(1)) + seq!['}', '}'],
                        );
                        crate::json::lemma_seq_assoc(
                            jstring(es[0].0@) + seq![':'], jstring(vv@),
                            seq![','] + (meta_json(es.skip(1)) + seq!['}', '}']),
                        );
                        crate::json::lemma_seq_assoc(
                            jstring(es[0].0@), seq![':'],
                            jstring(vv@) + (seq![','] + (meta_json(es.skip(1))
                                + seq!['}', '}'])),
                        );
                        assert(data@.subrange(pos as int, n as int) == jstring(es[0].0@)
                            + (seq![':'] + (jstring(vv@) + (seq![','] + (meta_json(
                            es.skip(1)) + seq!['}', '}'])))));
                    }
                }
            }
            let ghost tail_v = if es.len() == 1 {
                seq!['}', '}']
            } else {
                seq![','] + (meta_json(es.skip(1)) + seq!['}', '}'])
            };
            let (k, q1) = match parse_jstring_at(data, pos) {
                Some(v) => v,
                None => {
                    proof {
                        if canl {
                            crate::json::lemma_take_prefix(
                                data@, pos as int, jstring(es[0].0@),
                                seq![':'] + (jstring(vv@) + tail_v),
                            );
                            assert(false);
                        }
                    }
                    return Err(ManifestError::Json);
                },
            };
            proof {
                if canl {
                    crate::json::lemma_subrange_cat(data@, pos as int, q1 as int, n as int);
                    lemma_jstring_align(
                        k@, es[0].0@, data@.subrange(q1 as int, n as int),
                        seq![':'] + (jstring(vv@) + tail_v),
                    );
                }
            }
            let q2 = match expect_lit(data, q1, ":") {
                Some(p) => p,
                None => {
                    proof {
                        if canl {
                            crate::json::lemma_take_prefix(
                                data@, q1 as int, seq![':'], jstring(vv@) + tail_v,
                            );
                            assert(false);
                        }
                    }
                    return Err(ManifestError::Json);
                },
            };
            proof {
                if canl {
                    crate::json::lemma_take_prefix(
                        data@, q1 as int, seq![':'], jstring(vv@) + tail_v,
                    );
                }
            }
            let (v, q3) = match parse_jstring_at(data, q2) {
                Some(x) => x,
                None => {
                    proof {
                        if canl {
                            crate::json::lemma_take_prefix(
                                data@, q2 as int, jstring(vv@), tail_v,
                            );
                            assert(false);
                        }
                    }
                    return Err(ManifestError::Json);
                },
            };
            proof {
                if canl {
                    crate::json::lemma_subrange_cat(data@, q2 as int, q3 as int, n as int);
                    lemma_jstring_align(
                        v@, vv@, data@.subrange(q3 as int, n as int), tail_v,
                    );
                }
            }
            let ghost es_old = m.metadata@;
            proof {
                lemma_meta_push(es_old, (k, MetaValue::Str(v)));
            }
            m.metadata.push((k, MetaValue::Str(v)));
            proof {
                assert(compact_metadata(m.metadata@)) by {
                    assert(forall|j: int| 0 <= j < es_old.len()
                        ==> #[trigger] m.metadata@[j] == es_old[j]);
                }
            }
            let ghost hk = key_id() + jstring(m.id@) + key_version() + dec_str(m.version as nat)
                + key_node() + jstring(m.node@) + key_data_type() + jstring(m.data_type@)
                + key_data_size() + dec_str(m.data_size as nat) + key_data_hash()
                + jstring(m.data_hash@) + key_metadata();
            let ghost enc = jstring(k@) + seq![':'] + jstring(v@);
            proof {
                assert(meta_val_text(MetaValue::Str(v)) == jstring(v@));
                crate::json::lemma_subrange_cat(data@, 0, pos as int, q1 as int);
                crate::json::lemma_subrange_cat(data@, 0, q1 as int, q2 as int);
                crate::json::lemma_subrange_cat(data@, 0, q2 as int, q3 as int);
                crate::json::lemma_seq_assoc(
                    data@.subrange(0, pos as int), jstring(k@), seq![':'],
                );
                crate::json::lemma_seq_assoc(
                    data@.subrange(0, pos as int), jstring(k@) + seq![':'], jstring(v@),
                );
                assert(data@.subrange(0, q3 as int) == data@.subrange(0, pos as int)
                    + (jstring(k@) + seq![':'] + jstring(v@)));
                assert(m.metadata@ == es_old.push((k, MetaValue::Str(v))));
                if es_old.len() == 0 {
                    assert(data@.subrange(0, pos as int) == hk);
                    assert(meta_json(m.metadata@) == enc);
                    assert(data@.subrange(0, q3 as int) == hk + meta_json(m.metadata@));
                } else {
                    assert(data@.subrange(0, pos as int) == hk + meta_json(es_old) + seq![',']);
                    assert(meta_json(m.metadata@) == meta_json(es_old) + seq![','] + enc);
                    crate::json::lemma_seq_assoc(hk + meta_json(es_old), seq![','], enc);
                    crate::json::lemma_seq_assoc(hk, meta_json(es_old), seq![','] + enc);
                    crate::json::lemma_seq_assoc(meta_json(es_old), seq![','], enc);
                    assert(data@.subrange(0, q3 as int)
                        == hk + (meta_json(es_old) + (seq![','] + enc)));
                    assert(meta_json(m.metadata@) == meta_json(es_old) + (seq![','] + enc));
                    assert(data@.subrange(0, q3 as int) == hk + meta_json(m.metadata@));
                }
            }
            if let Some(q4) = expect_lit(data, q3, "}}") {
                if q4 == n {
                    proof {
                        crate::json::lemma_subrange_cat(data@, 0, q3 as int, q4 as int);
                        assert(data@ =~= data@.subrange(0, n as int));
                        lemma_manifest_json_parts(m);
                        crate::json::lemma_seq_assoc(hk, meta_json(m.metadata@), seq!['}', '}']);
                        assert(data@ == manifest_json(m));
                        assert(is_canonical_manifest_json(data@)) by {
                            assert(compact_metadata(m.metadata@) && data@ == manifest_json(m));
                        }
                    }
                    return Ok(m);
                }
                proof {
                    if canl {
                        if es.len() == 1 {
                            assert(data@.subrange(q3 as int, n as int) == seq!['}', '}']);
                            assert(n - q3 == 2);
                        } else {
                            assert(data@.subrange(q3 as int, n as int)[0] == data@[q3 as int]);
                            assert(data@.subrange(q3 as int, q3 + 2)[0] == data@[q3 as int]);
                            assert(data@[q3 as int] == ',');
                            assert(data@[q3 as int] == '}');
                        }
                        assert(false);
                    }
                }
                return Err(ManifestError::Json);
            }
            match expect_lit(data, q3, ",") {
                Some(q5) => {
                    proof {
                        crate::json::lemma_subrange_cat(data@, 0, q3 as int, q5 as int);
                        assert(data@.subrange(0, q5 as int) == hk + meta_json(m.metadata@)
                            + seq![',']);
                        if canl {
                            if es.len() == 1 {
                                assert(data@.subrange(q3 as int, n as int) == seq!['}', '}']);
                                assert(data@.subrange(q3 as int, q3 + 2) =~= seq!['}', '}']);
                                assert(false);
                            }
                            crate::json::lemma_take_prefix(
                                data@, q3 as int, seq![','],
                                meta_json(es.skip(1)) + seq!['}', '}'],
                            );
                            assert(es.skip(1) =~= mcl.metadata@.skip(i0 + 1));
                            assert(meta_json(es.skip(1)).len() > 0);
                        }
                    }
                    pos = q5;
                },
                None => {
                    proof {
                        if canl {
                            if es.len() == 1 {
                                assert(data@.subrange(q3 as int, n as int) == seq!['}', '}']);
                                assert(data@.subrange(q3 as int, q3 + 2) =~= seq!['}', '}']);
                            } else {
                                crate::json::lemma_take_prefix(
                                    data@, q3 as int, seq![','],
                                    meta_json(es.skip(1)) + seq!['}', '}'],
                                );
                                assert(data@.subrange(q3 as int, q3 + 1) =~= seq![',']);
                            }
                            assert(false);
                        }
                    }
                    return Err(ManifestError::Json);
                },
            }
        }
    }
}

impl Manifest {
    /// Parses a manifest from JSON text.
    ///
    /// Every text is accepted that the wire format defines: a JSON object
    /// with the required `id` and any of the optional keys, in any order,
    /// with any whitespace and the standard string escapes; absent keys
    /// fall back to their defaults, and keys outside the format are read
    /// over and ignored.  The library's own compact form is read directly;
    /// other texts go through the general reader in `reader`, whose spec
    /// functions state the accepted grammar.
    pub fn from_json(data: &str) -> (r: Result<Manifest, ManifestError>)
        ensures
            is_canonical_manifest_json(data@) ==> (r matches Ok(m)
                && data@ == manifest_json(m)),
            !is_canonical_manifest_json(data@) ==> (match crate::reader::relaxed_manifest(
                data@,
            ) {
                Some(f) => r matches Ok(m) && crate::reader::fields_match(m, f),
                None => r matches Err(e) && e is Json,
            }),
            r is Ok <==> (is_canonical_manifest_json(data@)
                || crate::reader::relaxed_manifest(data@) is Some),
            r is Err ==> (r matches Err(e) && e is Json),
    {
        match Self::parse_canonical_text(data) {
            Ok(m) => Ok(m),
            Err(_) => match crate::reader::read_manifest(data) {
                Some(m) => Ok(m),
                None => Err(ManifestError::Json),
            },
        }
    }
}

/// Appends the members of `v` from index `i` on.
fn append_meta(out: &mut String, v: &Vec<(String, MetaValue)>, i: usize)
    requires
        i <= v@.len(),
    ensures
        final(out)@ == old(out)@ + meta_json(v@.skip(i as int)),
    decreases v@.len() - i,
{
    proof {
        reveal_strlit(":");
        reveal_strlit(",");
        assert(":"@ =~= seq![':']);
        assert(","@ =~= seq![',']);
    }
    if i == v.len() {
        proof {
            assert(v@.skip(i as int).len() == 0);
            assert(old(out)@ + meta_json(v@.skip(i as int)) =~= old(out)@);
        }
        return;
    }
    let e = &v[i];
    append_jstring(out, e.0.as_str());
    out.append(":");
    match &e.1 {
        MetaValue::Str(sv) => {
            append_jstring(out, sv.as_str());
        },
        MetaValue::Raw(tv) => {
            out.append(tv.as_str());
        },
    }
    proof {
        assert(v@.skip(i as int)[0] == v@[i as int]);
        assert(v@.skip(i as int).skip(1) =~= v@.skip(i as int + 1));
    }
    if i + 1 < v.len() {
        out.append(",");
        append_meta(out, v, i + 1);
        proof {
            assert(final(out)@ =~= old(out)@ + meta_json(v@.skip(i as int)));
        }
    } else {
        proof {
            assert(v@.skip(i as int).len() == 1);
            assert(final(out)@ =~= old(out)@ + meta_json(v@.skip(i as int)));
        }
    }
}

/// Law: the canonical encoding determines the manifest.
///
/// Two manifests with the same canonical JSON text agree on every field (the
/// metadata compared by its encoded member list), so decoding an encoded
/// manifest recovers it.
pub proof fn lemma_manifest_json_inj(m1: Manifest, m2: Manifest)
    requires
        manifest_json(m1) == manifest_json(m2),
    ensures
        m1.id@ == m2.id@,
        m1.version == m2.version,
        m1.node@ == m2.node@,
        m1.data_type@ == m2.data_type@,
        m1.data_size == m2.data_size,
        m1.data_hash@ == m2.data_hash@,
        meta_json(m1.metadata@) == meta_json(m2.metadata@),
        (m1.metadata@.len() == 0) == (m2.metadata@.len() == 0),
{
    let r1 = jstring(m1.id@) + (key_version() + (dec_str(m1.version as nat) + (key_node()
        + (jstring(m1.node@) + (key_data_type() + (jstring(m1.data_type@) + (key_data_size()
        + (dec_str(m1.data_size as nat) + (key_data_hash() + (jstring(m1.data_hash@)
        + manifest_tail(m1)))))))))));
    let r2 = jstring(m2.id@) + (key_version() + (dec_str(m2.version as nat) + (key_node()
        + (jstring(m2.node@) + (key_data_type() + (jstring(m2.data_type@) + (key_data_size()
        + (dec_str(m2.data_size as nat) + (key_data_hash() + (jstring(m2.data_hash@)
        + manifest_tail(m2)))))))))));
    lemma_cancel_prefix(key_id(), r1, r2);
    let u1 = key_version() + (dec_str(m1.version as nat) + (key_node() + (jstring(m1.node@)
        + (key_data_type() + (jstring(m1.data_type@) + (key_data_size()
        + (dec_str(m1.data_size as nat) + (key_data_hash() + (jstring(m1.data_hash@)
        + manifest_tail(m1))))))))));
    let u2 = key_version() + (dec_str(m2.version as nat) + (key_node() + (jstring(m2.node@)
        + (key_data_type() + (jstring(m2.data_type@) + (key_data_size()
        + (dec_str(m2.data_size as nat) + (key_data_hash() + (jstring(m2.data_hash@)
        + manifest_tail(m2))))))))));
    lemma_jstring_align(m1.id@, m2.id@, u1, u2);
    let v1 = dec_str(m1.version as nat) + (key_node() + (jstring(m1.node@) + (key_data_type()
        + (jstring(m1.data_type@) + (key_data_size() + (dec_str(m1.data_size as nat)
        + (key_data_hash() + (jstring(m1.data_hash@) + manifest_tail(m1)))))))));
    let v2 = dec_str(m2.version as nat) + (key_node() + (jstring(m2.node@) + (key_data_type()
        + (jstring(m2.data_type@) + (key_data_size() + (dec_str(m2.data_size as nat)
        + (key_data_hash() + (jstring(m2.data_hash@) + manifest_tail(m2)))))))));
    lemma_cancel_prefix(key_version(), v1, v2);
    let w1 = key_node() + (jstring(m1.node@) + (key_data_type() + (jstring(m1.data_type@)
        + (key_data_size() + (dec_str(m1.data_size as nat) + (key_data_hash()
        + (jstring(m1.data_hash@) + manifest_tail(m1))))))));
    let w2 = key_node() + (jstring(m2.node@) + (key_data_type() + (jstring(m2.data_type@)
        + (key_data_size() + (dec_str(m2.data_size as nat) + (key_data_hash()
        + (jstring(m2.data_hash@) + manifest_tail(m2))))))));
    assert(w1[0] == ',');
    assert(w2[0] == ',');
    lemma_dec_align(m1.version as nat, m2.version as nat, w1, w2);
    let x1 = jstring(m1.node@) + (key_data_type() + (jstring(m1.data_type@) + (key_data_size()
        + (dec_str(m1.data_size as nat) + (key_data_hash() + (jstring(m1.data_hash@)
        + manifest_tail(m1)))))));
    let x2 = jstring(m2.node@) + (key_data_type() + (jstring(m2.data_type@) + (key_data_size()
        + (dec_str(m2.data_size as nat) + (key_data_hash() + (jstring(m2.data_hash@)
        + manifest_tail(m2)))))));
    lemma_cancel_prefix(key_node(), x1, x2);
    let y1 = key_data_type() + (jstring(m1.data_type@) + (key_data_size()
        + (dec_str(m1.data_size as nat) + (key_data_hash() + (jstring(m1.data_hash@)
        + manifest_tail(m1))))));
    let y2 = key_data_type() + (jstring(m2.data_type@) + (key_data_size()
        + (dec_str(m2.data_size as nat) + (key_data_hash() + (jstring(m2.data_hash@)
        + manifest_tail(m2))))));
    lemma_jstring_align(m1.node@, m2.node@, y1, y2);
    let z1 = jstring(m1.data_type@) + (key_data_size() + (dec_str(m1.data_size as nat)
        + (key_data_hash() + (jstring(m1.data_hash@) + manifest_tail(m1)))));
    let z2 = jstring(m2.data_type@) + (key_data_size() + (dec_str(m2.data_size as nat)
        + (key_data_hash() + (jstring(m2.data_hash@) + manifest_tail(m2)))));
    lemma_cancel_prefix(key_data_type(), z1, z2);
    let q1 = key_data_size() + (dec_str(m1.data_size as nat) + (key_data_hash()
        + (jstring(m1.data_hash@) + manifest_tail(m1))));
    let q2 = key_data_size() + (dec_str(m2.data_size as nat) + (key_data_hash()
        + (jstring(m2.data_hash@) + manifest_tail(m2))));
    lemma_jstring_align(m1.data_type@, m2.data_type@, q1, q2);
    let g1 = dec_str(m1.data_size as nat) + (key_data_hash() + (jstring(m1.data_hash@)
        + manifest_tail(m1)));
    let g2 = dec_str(m2.data_size as nat) + (key_data_hash() + (jstring(m2.data_hash@)
        + manifest_tail(m2)));
    lemma_cancel_prefix(key_data_size(), g1, g2);
    let h1 = key_data_hash() + (jstring(m1.data_hash@) + manifest_tail(m1));
    let h2 = key_data_hash() + (jstring(m2.data_hash@) + manifest_tail(m2));
    assert(h1[0] == ',');
    assert(h2[0] == ',');
    lemma_dec_align(m1.data_size as nat, m2.data_size as nat, h1, h2);
    let i1 = jstring(m1.data_hash@) + manifest_tail(m1);
    let i2 = jstring(m2.data_hash@) + manifest_tail(m2);
    lemma_cancel_prefix(key_data_hash(), i1, i2);
    lemma_jstring_align(m1.data_hash@, m2.data_hash@, manifest_tail(m1), manifest_tail(m2));
    // the tails agree, so the member lists agree
    let t1 = manifest_tail(m1);
    let t2 = manifest_tail(m2);
    if m1.metadata@.len() == 0 && m2.metadata@.len() > 0 {
        assert(t1[0] == '}');
        assert(t2[0] == ',');
        assert(false);
    }
    if m1.metadata@.len() > 0 && m2.metadata@.len() == 0 {
        assert(t1[0] == ',');
        assert(t2[0] == '}');
        assert(false);
    }
    if m1.metadata@.len() > 0 {
        lemma_cancel_prefix(
            key_metadata(),
            meta_json(m1.metadata@) + seq!['}', '}'],
            meta_json(m2.metadata@) + seq!['}', '}'],
        );
        let g1 = meta_json(m1.metadata@) + seq!['}', '}'];
        let g2 = meta_json(m2.metadata@) + seq!['}', '}'];
        assert(g1.len() == g2.len());
        assert(meta_json(m1.metadata@) =~= g1.subrange(0, g1.len() - 2));
        assert(meta_json(m2.metadata@) =~= g2.subrange(0, g2.len() - 2));
    }
}

/// The lowercase hexadecimal rendering of a byte sequence, two digits per
/// byte.
pub open spec fn hex_of(b: Seq<u8>) -> Seq<char>
    decreases b.len(),
{
    if b.len() == 0 {
        Seq::empty()
    } else {
        seq![hex_char(b[0] as int / 16), hex_char(b[0] as int % 16)] + hex_of(b.skip(1))
    }
}

/// Hex rendering distributes over appending one byte.
pub proof fn lemma_hex_push(b: Seq<u8>, x: u8)
    ensures
        hex_of(b.push(x)) == hex_of(b) + seq![hex_char(x as int / 16), hex_char(x as int % 16)],
    decreases b.len(),
{
    let e = seq![hex_char(x as int / 16), hex_char(x as int % 16)];
    if b.len() == 0 {
        assert(b.push(x).skip(1) =~= Seq::<u8>::empty());
        assert(b.push(x)[0] == x);
        assert(hex_of(b.push(x).skip(1)) == Seq::<char>::empty());
        assert(hex_of(b.push(x)) =~= e);
        assert(hex_of(b) == Seq::<char>::empty());
        assert(hex_of(b) + e =~= e);
    } else {
        lemma_hex_push(b.skip(1), x);
        assert(b.push(x).skip(1) =~= b.skip(1).push(x));
        assert(b.push(x)[0] == b[0]);
        let h = seq![hex_char(b[0] as int / 16), hex_char(b[0] as int % 16)];
        assert(hex_of(b.push(x)) == h + (hex_of(b.skip(1)) + e));
        assert(h + (hex_of(b.skip(1)) + e) =~= (h + hex_of(b.skip(1))) + e);
    }
}

/// Renders a byte vector as lowercase hexadecimal.
pub fn hex_encode(b: &Vec<u8>) -> (r: String)
    ensures
        r@ == hex_of(b@),
{
    let mut out = String::new();
    let mut i: usize = 0;
    while i < b.len()
        invariant
            i <= b@.len(),
            out@ == hex_of(b@.subrange(0, i as int)),
        decreases b@.len() - i,
    {
        let x = b[i];
        let ghost pre = b@.subrange(0, i as int);
        out.append(digit_str((x / 16) as u64));
        out.append(digit_str((x % 16) as u64));
        proof {
            lemma_hex_push(pre, x);
            assert(b@.subrange(0, i as int + 1) =~= pre.push(b@[i as int]));
            assert(out@ =~= hex_of(b@.subrange(0, i as int + 1)));
        }
        i = i + 1;
    }
    proof {
        assert(b@.subrange(0, b@.len() as int) =~= b@);
    }
    out
}

/// The two-byte big-endian encoding of a value.
pub open spec fn be2(x: int) -> Seq<u8> {
    seq![((x / 256) % 256) as u8, (x % 256) as u8]
}

/// The four-byte big-endian encoding of a value.
pub open spec fn be4(x: int) -> Seq<u8> {
    seq![
        ((x / 0x1000000) % 256) as u8,
        ((x / 0x10000) % 256) as u8,
        ((x / 256) % 256) as u8,
        (x % 256) as u8,
    ]
}

/// The value a four-byte big-endian field denotes.
pub open spec fn be4_val(b: Seq<u8>) -> int {
    b[0] * 0x1000000 + b[1] * 0x10000 + b[2] * 256 + b[3]
}

/// Decoding inverts the four-byte big-endian encoding.
pub proof fn lemma_be4_val(x: int)
    requires
        0 <= x < 0x1_0000_0000,
    ensures
        be4_val(be4(x)) == x,
{
    crate::tstamp::lemma_split_div(x, x, 256);
    crate::tstamp::lemma_split_div(x / 256, x / 256, 256);
    crate::tstamp::lemma_split_div(x / 256 / 256, x / 256 / 256, 256);
    vstd::arithmetic::div_mod::lemma_div_denominator(x, 256, 256);
    vstd::arithmetic::div_mod::lemma_div_denominator(x, 0x10000, 256);
    assert(x / 256 / 256 == x / 0x10000);
    assert(x / 0x10000 / 256 == x / 0x1000000);
    assert(x / 0x1000000 < 256) by {
        if x / 0x1000000 >= 256 {
            vstd::arithmetic::div_mod::lemma_remainder_lower(x, 0x1000000);
            assert(x / 0x1000000 * 0x1000000 >= 256 * 0x1000000);
        }
    }
    assert((x / 0x1000000) % 256 == x / 0x1000000) by {
        crate::tstamp::lemma_split_div(x / 0x1000000, x / 0x1000000, 256);
    }
}

/// Appends the two-byte big-endian encoding of `x`.
fn push_be2(out: &mut Vec<u8>, x: u16)
    ensures
        final(out)@ == old(out)@ + be2(x as int),
{
    out.push((x / 256) as u8);
    out.push((x % 256) as u8);
    proof {
        assert(x as int / 256 < 256);
        assert((x as int / 256) % 256 == x as int / 256) by {
            crate::tstamp::lemma_split_div(x as int / 256, x as int / 256, 256);
        }
        assert(final(out)@ =~= old(out)@ + be2(x as int));
    }
}

/// Appends the four-byte big-endian encoding of `x`.
fn push_be4(out: &mut Vec<u8>, x: u32)
    ensures
        final(out)@ == old(out)@ + be4(x as int),
{
    out.push((x / 0x1000000) as u8);
    out.push((x / 0x10000 % 256) as u8);
    out.push((x / 256 % 256) as u8);
    out.push((x % 256) as u8);
    proof {
        assert(x as int / 0x1000000 < 256);
        assert((x as int / 0x1000000) % 256 == x as int / 0x1000000) by {
            crate::tstamp::lemma_split_div(x as int / 0x1000000, x as int / 0x1000000, 256);
        }
        assert(final(out)@ =~= old(out)@ + be4(x as int));
    }
}

/// Reads the four-byte big-endian field at offset `i`.
fn read_be4(data: &[u8], i: usize) -> (r: u32)
    requires
        i + 4 <= data@.len(),
    ensures
        r == be4_val(data@.subrange(i as int, i as int + 4)),
{
    let b0 = data[i];
    let b1 = data[i + 1];
    let b2 = data[i + 2];
    let b3 = data[i + 3];
    let r = (b0 as u32) * 0x1000000 + (b1 as u32) * 0x10000 + (b2 as u32) * 256 + (b3 as u32);
    proof {
        let s = data@.subrange(i as int, i as int + 4);
        assert(s[0] == data@[i as int] && s[1] == data@[i as int + 1]
            && s[2] == data@[i as int + 2] && s[3] == data@[i as int + 3]);
    }
    r
}

/// The wire layout: magic, version, metadata length, metadata bytes,
/// payload.
pub open spec fn frame_bytes(jb: Seq<u8>, payload: Seq<u8>) -> Seq<u8> {
    magic_seq() + be2(MANIFEST_VERSION as int) + be4(jb.len() as int) + jb + payload
}

/// A container: one manifest and one opaque payload.
#[derive(Debug)]
pub struct SynapseFile {
    pub manifest: Manifest,
    pub payload: Vec<u8>,
}

impl SynapseFile {
    /// Pairs a manifest with a payload.
    pub fn new(manifest: Manifest, payload: Vec<u8>) -> (r: SynapseFile)
        ensures
            r.manifest == manifest,
            r.payload == payload,
    {
        SynapseFile { manifest, payload }
    }

    /// Encodes the container into one self-describing buffer, recomputing
    /// the manifest's payload size and content hash first.  Fails exactly
    /// when the encoded manifest block exceeds the ceiling.
    pub fn to_bytes(&mut self) -> (r: Result<Vec<u8>, ManifestError>)
        ensures
            final(self).payload@ == old(self).payload@,
            final(self).manifest.id@ == old(self).manifest.id@,
            final(self).manifest.version == old(self).manifest.version,
            final(self).manifest.node@ == old(self).manifest.node@,
            final(self).manifest.data_type@ == old(self).manifest.data_type@,
            final(self).manifest.metadata@ == old(self).manifest.metadata@,
            final(self).manifest.data_size == old(self).payload@.len(),
            final(self).manifest.data_hash@ == hex_of(crate::sys::sha256_of(old(self).payload@)),
            r is Ok <==> vstd::utf8::encode_utf8(manifest_json(final(self).manifest)).len()
                <= MAX_MANIFEST_SIZE,
            r matches Ok(b) ==> b@ == frame_bytes(
                vstd::utf8::encode_utf8(manifest_json(final(self).manifest)),
                old(self).payload@,
            ),
            r matches Err(e) ==> e matches ManifestError::ManifestTooLarge(sz)
                && sz == vstd::utf8::encode_utf8(manifest_json(final(self).manifest)).len(),
    {
        self.manifest.data_size = self.payload.len();
        let digest = crate::sys::sha256(self.payload.as_slice());
        self.manifest.data_hash = hex_encode(&digest);
        let json = match self.manifest.to_json() {
            Ok(j) => j,
            Err(_) => {
                proof {
                    assert(false);
                }
                return Err(ManifestError::Io);
            },
        };
        let mut jb = crate::sys::string_into_bytes(json);
        if jb.len() > MAX_MANIFEST_SIZE {
            return Err(ManifestError::ManifestTooLarge(jb.len()));
        }
        let ghost jbs = jb@;
        let mut out: Vec<u8> = Vec::new();
        out.push(83);
        out.push(89);
        out.push(78);
        out.push(77);
        proof {
            assert(out@ =~= magic_seq());
        }
        push_be2(&mut out, MANIFEST_VERSION);
        push_be4(&mut out, jb.len() as u32);
        out.append(&mut jb);
        let mut i: usize = 0;
        while i < self.payload.len()
            invariant
                i <= self.payload@.len(),
                out@ == magic_seq() + be2(MANIFEST_VERSION as int) + be4(jbs.len() as int) + jbs
                    + self.payload@.subrange(0, i as int),
                self.payload@ == old(self).payload@,
            decreases self.payload@.len() - i,
        {
            out.push(self.payload[i]);
            proof {
                assert(self.payload@.subrange(0, i as int + 1)
                    =~= self.payload@.subrange(0, i as int).push(self.payload@[i as int]));
                assert(out@ =~= magic_seq() + be2(MANIFEST_VERSION as int)
                    + be4(jbs.len() as int) + jbs + self.payload@.subrange(0, i as int + 1));
            }
            i = i + 1;
        }
        proof {
            assert(self.payload@.subrange(0, self.payload@.len() as int) =~= self.payload@);
            assert(out@ == frame_bytes(jbs, self.payload@));
        }
        Ok(out)
    }

    /// Decodes one self-describing buffer: checks the length, the magic,
    /// the declared metadata length and the truncation guard, in that
    /// order, before reading the metadata block.
    pub fn from_bytes(data: &[u8]) -> (r: Result<SynapseFile, ManifestError>)
        ensures
            data@.len() < HEADER_SIZE ==> (r matches Err(e) && e is DataTooSmall),
            data@.len() >= HEADER_SIZE && data@.subrange(0, 4) != magic_seq()
                ==> (r matches Err(e) && e is InvalidMagic),
            data@.len() >= HEADER_SIZE && data@.subrange(0, 4) == magic_seq()
                && be4_val(data@.subrange(6, 10)) > MAX_MANIFEST_SIZE
                ==> (r matches Err(e) && e matches ManifestError::ManifestTooLarge(sz)
                    && sz == be4_val(data@.subrange(6, 10))),
            data@.len() >= HEADER_SIZE && data@.subrange(0, 4) == magic_seq()
                && be4_val(data@.subrange(6, 10)) <= MAX_MANIFEST_SIZE
                && HEADER_SIZE + be4_val(data@.subrange(6, 10)) > data@.len()
                ==> (r matches Err(e) && e is DataTooSmall),
            data@.len() >= HEADER_SIZE && data@.subrange(0, 4) == magic_seq()
                && be4_val(data@.subrange(6, 10)) <= MAX_MANIFEST_SIZE
                && HEADER_SIZE + be4_val(data@.subrange(6, 10)) <= data@.len()
                && !vstd::utf8::valid_utf8(data@.subrange(
                    HEADER_SIZE as int,
                    HEADER_SIZE + be4_val(data@.subrange(6, 10)),
                )) ==> (r matches Err(e) && e is Io),
            r is Err ==> (r matches Err(e) && (e is DataTooSmall || e is InvalidMagic
                || e matches ManifestError::ManifestTooLarge(_) || e is Io || e is Json)),
            data@.len() >= HEADER_SIZE && data@.subrange(0, 4) == magic_seq()
                && be4_val(data@.subrange(6, 10)) <= MAX_MANIFEST_SIZE
                && HEADER_SIZE + be4_val(data@.subrange(6, 10)) <= data@.len()
                && vstd::utf8::valid_utf8(data@.subrange(
                    HEADER_SIZE as int,
                    HEADER_SIZE + be4_val(data@.subrange(6, 10)),
                ))
                && is_canonical_manifest_json(vstd::utf8::decode_utf8(data@.subrange(
                    HEADER_SIZE as int,
                    HEADER_SIZE + be4_val(data@.subrange(6, 10)),
                ))) ==> r is Ok,
            data@.len() >= HEADER_SIZE && data@.subrange(0, 4) == magic_seq()
                && be4_val(data@.subrange(6, 10)) <= MAX_MANIFEST_SIZE
                && HEADER_SIZE + be4_val(data@.subrange(6, 10)) <= data@.len()
                && vstd::utf8::valid_utf8(data@.subrange(
                    HEADER_SIZE as int,
                    HEADER_SIZE + be4_val(data@.subrange(6, 10)),
                ))
                && crate::reader::relaxed_manifest(vstd::utf8::decode_utf8(data@.subrange(
                    HEADER_SIZE as int,
                    HEADER_SIZE + be4_val(data@.subrange(6, 10)),
                ))) is Some ==> r is Ok,
            r matches Ok(f) ==> data@.len() >= HEADER_SIZE
                && data@.subrange(0, 4) == magic_seq()
                && be4_val(data@.subrange(6, 10)) <= MAX_MANIFEST_SIZE
                && HEADER_SIZE + be4_val(data@.subrange(6, 10)) <= data@.len()
                && (is_canonical_manifest_json(vstd::utf8::decode_utf8(data@.subrange(
                    HEADER_SIZE as int,
                    HEADER_SIZE + be4_val(data@.subrange(6, 10)),
                ))) ==> vstd::utf8::decode_utf8(data@.subrange(
                    HEADER_SIZE as int,
                    HEADER_SIZE + be4_val(data@.subrange(6, 10)),
                )) == manifest_json(f.manifest))
                && (!is_canonical_manifest_json(vstd::utf8::decode_utf8(data@.subrange(
                    HEADER_SIZE as int,
                    HEADER_SIZE + be4_val(data@.subrange(6, 10)),
                ))) ==> (crate::reader::relaxed_manifest(vstd::utf8::decode_utf8(
                    data@.subrange(
                        HEADER_SIZE as int,
                        HEADER_SIZE + be4_val(data@.subrange(6, 10)),
                    ),
                )) matches Some(flds) && crate::reader::fields_match(f.manifest, flds)))
                && f.payload@ == data@.subrange(
                    HEADER_SIZE + be4_val(data@.subrange(6, 10)),
                    data@.len() as int,
                ),
    {
        if data.len() < HEADER_SIZE {
            return Err(ManifestError::DataTooSmall);
        }
        if !(data[0] == 83 && data[1] == 89 && data[2] == 78 && data[3] == 77) {
            proof {
                assert(data@.subrange(0, 4) != magic_seq()) by {
                    if data@.subrange(0, 4) == magic_seq() {
                        assert(data@.subrange(0, 4)[0] == data@[0]);
                        assert(data@.subrange(0, 4)[1] == data@[1]);
                        assert(data@.subrange(0, 4)[2] == data@[2]);
                        assert(data@.subrange(0, 4)[3] == data@[3]);
                    }
                }
            }
            return Err(ManifestError::InvalidMagic);
        }
        proof {
            assert(data@.subrange(0, 4) =~= magic_seq());
        }
        let declared32 = read_be4(data, 6);
        let declared = declared32 as usize;
        if declared > MAX_MANIFEST_SIZE {
            return Err(ManifestError::ManifestTooLarge(declared));
        }
        let end = HEADER_SIZE + declared;
        if end > data.len() {
            return Err(ManifestError::DataTooSmall);
        }
        let jslice = vstd::slice::slice_subrange(data, HEADER_SIZE, end);
        let jstr = match crate::sys::bytes_to_str(jslice) {
            Some(s) => s,
            None => {
                return Err(ManifestError::Io);
            },
        };
        let manifest = match Manifest::from_json(jstr) {
            Ok(m) => m,
            Err(_) => {
                return Err(ManifestError::Json);
            },
        };
        let payload = vstd::slice::slice_to_vec(vstd::slice::slice_subrange(
            data,
            end,
            data.len(),
        ));
        Ok(SynapseFile { manifest, payload })
    }

    /// Recomputes the payload's content hash and compares it with the
    /// stored one.
    pub fn verify(&self) -> (r: bool)
        ensures
            r == (self.manifest.data_hash@ == hex_of(crate::sys::sha256_of(self.payload@))),
    {
        let digest = crate::sys::sha256(self.payload.as_slice());
        let computed = hex_encode(&digest);
        computed == self.manifest.data_hash
    }

    /// Whether a buffer leads with the container magic, the decision `load`
    /// uses to tell an embedded container from a bare payload.
    pub fn has_magic_prefix(data: &[u8]) -> (r: bool)
        ensures
            r == (data@.len() >= 4 && data@.subrange(0, 4) == magic_seq()),
    {
        if data.len() < 4 {
            return false;
        }
        let ok = data[0] == 83 && data[1] == 89 && data[2] == 78 && data[3] == 77;
        proof {
            assert(data@.subrange(0, 4)[0] == data@[0]);
            assert(data@.subrange(0, 4)[1] == data@[1]);
            assert(data@.subrange(0, 4)[2] == data@[2]);
            assert(data@.subrange(0, 4)[3] == data@[3]);
            if ok {
                assert(data@.subrange(0, 4) =~= magic_seq());
            }
        }
        ok
    }

    /// A container synthesized around a bare payload: the identifier is the
    /// caller's (`load` passes the file stem), the size and hash are
    /// computed from the payload, everything else is the default.
    pub fn from_raw(id: &str, payload: Vec<u8>) -> (r: SynapseFile)
        ensures
            r.manifest.id@ == id@,
            r.manifest.version == MANIFEST_VERSION,
            r.manifest.node@ == Seq::<char>::empty(),
            r.manifest.data_type@ == "unknown"@,
            r.manifest.data_size == payload@.len(),
            r.manifest.data_hash@ == hex_of(crate::sys::sha256_of(payload@)),
            r.manifest.metadata@.len() == 0,
            r.payload == payload,
    {
        let digest = crate::sys::sha256(payload.as_slice());
        let mut manifest = Manifest::new(id);
        manifest.data_size = payload.len();
        manifest.data_hash = hex_encode(&digest);
        SynapseFile { manifest, payload }
    }
}

/// Law: an encoded container always decodes.
///
/// The buffer `to_bytes` produces passes every check of `from_bytes`: it is
/// long enough, leads with the magic, declares an in-bound metadata length
/// that fits the buffer, and carries valid UTF-8 that is the canonical
/// encoding of a manifest — so decoding it succeeds.
pub proof fn lemma_encode_decodes(m: Manifest, payload: Seq<u8>)
    requires
        compact_metadata(m.metadata@),
        vstd::utf8::encode_utf8(manifest_json(m)).len() <= MAX_MANIFEST_SIZE,
    ensures
        ({
            let b = frame_bytes(vstd::utf8::encode_utf8(manifest_json(m)), payload);
            let declared = be4_val(b.subrange(6, 10));
            &&& b.len() >= HEADER_SIZE
            &&& b.subrange(0, 4) == magic_seq()
            &&& declared <= MAX_MANIFEST_SIZE
            &&& HEADER_SIZE + declared <= b.len()
            &&& vstd::utf8::valid_utf8(b.subrange(HEADER_SIZE as int, HEADER_SIZE + declared))
            &&& is_canonical_manifest_json(vstd::utf8::decode_utf8(b.subrange(
                HEADER_SIZE as int,
                HEADER_SIZE + declared,
            )))
        }),
{
    let jb = vstd::utf8::encode_utf8(manifest_json(m));
    let b = frame_bytes(jb, payload);
    lemma_be4_val(jb.len() as int);
    assert(b.subrange(0, 4) =~= magic_seq());
    assert(b.subrange(6, 10) =~= be4(jb.len() as int));
    assert(be4_val(b.subrange(6, 10)) == jb.len());
    assert(b.subrange(HEADER_SIZE as int, HEADER_SIZE + jb.len()) =~= jb);
    vstd::utf8::encode_utf8_valid_utf8(manifest_json(m));
    vstd::utf8::encode_utf8_decode_utf8(manifest_json(m));
    assert(is_canonical_manifest_json(vstd::utf8::decode_utf8(jb))) by {
        assert(compact_metadata(m.metadata@) && vstd::utf8::decode_utf8(jb) == manifest_json(m));
    }
}

/// Law: container round trip.
///
/// Encoding a manifest and payload and decoding the resulting buffer
/// reproduces the manifest's fields and the payload bytes exactly, and the
/// decoded container's stored hash is the hash of its payload, so its
/// verification succeeds.
pub proof fn lemma_container_round_trip(
    m: Manifest, payload: Seq<u8>, b: Seq<u8>, m2: Manifest, payload2: Seq<u8>,
)
    requires
        m.data_size == payload.len(),
        m.data_hash@ == hex_of(crate::sys::sha256_of(payload)),
        vstd::utf8::encode_utf8(manifest_json(m)).len() <= MAX_MANIFEST_SIZE,
        b == frame_bytes(vstd::utf8::encode_utf8(manifest_json(m)), payload),
        vstd::utf8::decode_utf8(b.subrange(
            HEADER_SIZE as int,
            HEADER_SIZE + be4_val(b.subrange(6, 10)),
        )) == manifest_json(m2),
        payload2 == b.subrange(HEADER_SIZE + be4_val(b.subrange(6, 10)), b.len() as int),
    ensures
        m2.id@ == m.id@,
        m2.version == m.version,
        m2.node@ == m.node@,
        m2.data_type@ == m.data_type@,
        m2.data_size == payload.len(),
        m2.data_hash@ == hex_of(crate::sys::sha256_of(payload)),
        payload2 == payload,
        m2.data_hash@ == hex_of(crate::sys::sha256_of(payload2)),
{
    let jb = vstd::utf8::encode_utf8(manifest_json(m));
    lemma_be4_val(jb.len() as int);
    assert(b.subrange(6, 10) =~= be4(jb.len() as int));
    assert(be4_val(b.subrange(6, 10)) == jb.len());
    assert(b.subrange(HEADER_SIZE as int, HEADER_SIZE + jb.len()) =~= jb);
    vstd::utf8::encode_utf8_decode_utf8(manifest_json(m));
    assert(manifest_json(m2) == manifest_json(m));
    lemma_manifest_json_inj(m, m2);
    assert(payload2 =~= payload);
}

} // verus!
