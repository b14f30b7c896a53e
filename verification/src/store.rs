//! The component store: string keys mapped to opaque encoded buffers, with
//! typed insert and retrieval through the uniform encoding, and whole-store
//! persistence to one document.

use vstd::prelude::*;

use rustc_hash::FxHashMap;

use crate::codec::json_of;
use crate::codec::sp_value;
use crate::codec::parse_value;
use crate::codec::encode_value;
use crate::codec::lemma_parse_of_encoding;
use crate::codec::lemma_encoding_injective;
use crate::codec::bytes_at;
use crate::codec::lemma_sp_of_json;
use crate::value::Value;
use crate::value::SpecValue;
use crate::value::SaveError;
use crate::value::value_wf;
use crate::value::view_of;
use crate::value::views_of_pairs;
use crate::value::lemma_views_of_pairs;
use crate::value::lemma_view_wf;
use crate::value::bytes_eq;
use vstd::string::StrSliceExecFns;
use vstd::string::StringExecFns;
use vstd::utf8::encode_utf8;
use vstd::utf8::decode_utf8;
use vstd::utf8::valid_utf8;
use vstd::utf8::encode_utf8_valid_utf8;
use vstd::utf8::encode_utf8_decode_utf8;

verus! {

/// The hasher type of the `rustc_hash` crate, declared so that its hash
/// maps can stand in signatures; nothing is assumed of it.
#[verifier::external_type_specification]
#[verifier::external_body]
pub struct ExFxBuildHasher(rustc_hash::FxBuildHasher);

/// The backing table of the store.
pub type ByteMap = FxHashMap<Vec<u8>, Vec<u8>>;

/// What a store map holds: the bytes of each key mapped to the bytes
/// stored under it.
pub uninterp spec fn map_contents(m: ByteMap) -> Map<Seq<u8>, Seq<u8>>;

/// The empty contents.
pub open spec fn empty_contents() -> Map<Seq<u8>, Seq<u8>> {
    Map::empty()
}

/// Relies on FxHashMap::default: a fresh map holds nothing.
#[verifier::external_body]
fn map_new() -> (r: ByteMap)
    ensures
        map_contents(r) == empty_contents(),
{
    FxHashMap::default()
}

/// Relies on HashMap::insert: the entry under the key is set to the value,
/// replacing any earlier one, and every other entry is kept.
#[verifier::external_body]
fn map_insert(m: &mut ByteMap, key: Vec<u8>, value: Vec<u8>)
    ensures
        map_contents(*final(m)) == map_contents(*old(m)).insert(key@, value@),
{
    m.insert(key, value);
}

/// Relies on HashMap::get: the entry under the key, if there is one.
#[verifier::external_body]
fn map_get<'a>(m: &'a ByteMap, key: &Vec<u8>) -> (r: Option<&'a Vec<u8>>)
    ensures
        match r {
            Some(v) => map_contents(*m).contains_key(key@) && v@ == map_contents(*m)[key@],
            None => !map_contents(*m).contains_key(key@),
        },
{
    m.get(key)
}

/// Relies on HashMap::iter: every entry is listed exactly once, in some
/// unspecified order.
#[verifier::external_body]
fn map_pairs(m: &ByteMap) -> (r: Vec<(Vec<u8>, Vec<u8>)>)
    ensures
        forall|i: int|
            0 <= i < r@.len() ==> map_contents(*m).contains_key((#[trigger] r@[i]).0@)
                && map_contents(*m)[r@[i].0@] == r@[i].1@,
        forall|k: Seq<u8>|
            #[trigger] map_contents(*m).contains_key(k) ==> exists|i: int|
                0 <= i < r@.len() && (#[trigger] r@[i]).0@ == k,
        forall|i: int, j: int| 0 <= i < j < r@.len() ==> r@[i].0@ != r@[j].0@,
{
    m.iter().map(|(k, v)| (k.clone(), v.clone())).collect()
}

/// Relies on dirs::data_dir: the platform's per-user data directory, when
/// the platform reports one that is valid text; nothing is assumed of the
/// outcome.
#[verifier::external_body]
fn platform_data_dir() -> (r: Option<String>) {
    match dirs::data_dir() {
        Some(p) => match p.to_str() {
            Some(s) => Some(s.to_string()),
            None => None,
        },
        None => None,
    }
}

/// Relies on String::from_utf8: it accepts exactly the byte sequences that
/// are valid UTF-8, and decodes them to the characters they encode.
#[verifier::external_body]
fn bytes_to_string(v: Vec<u8>) -> (r: Option<String>)
    ensures
        r is Some <==> valid_utf8(v@),
        r matches Some(s) ==> s@ == decode_utf8(v@),
{
    match String::from_utf8(v) {
        Ok(s) => Some(s),
        Err(_) => None,
    }
}

/// A copy of the given bytes.
pub fn clone_bytes(a: &Vec<u8>) -> (r: Vec<u8>)
    ensures
        r@ == a@,
{
    let mut r: Vec<u8> = Vec::new();
    let n = a.len();
    for i in 0..n
        invariant
            n == a.len(),
            r@ == a@.subrange(0, i as int),
    {
        r.push(a[i]);
        proof {
            assert(a@.subrange(0, i + 1) =~= a@.subrange(0, i as int).push(a@[i as int]));
        }
    }
    proof {
        assert(a@.subrange(0, n as int) =~= a@);
    }
    r
}

/// The bytes under a key are the canonical encoding of exactly one
/// well-formed value.
pub open spec fn stored_ok(bts: Seq<u8>) -> bool {
    exists|sv: SpecValue| value_wf(sv) && bts == json_of(sv)
}

/// The component store: a mapping from key text (kept as UTF-8 bytes) to
/// the canonical encoding of the component stored under it, together with
/// the organization name that directs where the store lives on disk.
pub struct SaveFile {
    map: ByteMap,
    org_name: String,
}

impl SaveFile {
    /// The store's entries: key bytes mapped to stored encodings.
    pub closed spec fn entries(&self) -> Map<Seq<u8>, Seq<u8>> {
        map_contents(self.map)
    }

    /// The organization name.
    pub closed spec fn org(&self) -> Seq<char> {
        self.org_name@
    }

    /// Every stored byte sequence is the canonical encoding of a value.
    pub open spec fn wf(&self) -> bool {
        forall|k: Seq<u8>|
            #[trigger] self.entries().contains_key(k) ==> stored_ok(self.entries()[k])
    }

    /// An empty store for the given organization.
    pub fn new(organization_name: String) -> (s: SaveFile)
        ensures
            s.entries() == Map::<Seq<u8>, Seq<u8>>::empty(),
            s.org() == organization_name@,
            s.wf(),
    {
        SaveFile { map: map_new(), org_name: organization_name }
    }

    /// Replaces the organization name; the entries are untouched.
    pub fn set_organization(&mut self, name: String)
        ensures
            final(self).entries() == old(self).entries(),
            final(self).org() == name@,
            old(self).wf() ==> final(self).wf(),
    {
        self.org_name = name;
        proof {
            if old(self).wf() {
                assert forall|k: Seq<u8>| #[trigger] self.entries().contains_key(k)
                    implies stored_ok(self.entries()[k]) by {
                    assert(old(self).entries().contains_key(k));
                }
            }
        }
    }

    /// Inserts `value` under `key`, overwriting whatever was there: the new
    /// entries are exactly the old ones with this key bound to the value's
    /// canonical encoding. Encoding a value never fails.
    pub fn add_component(&mut self, key: String, value: &Value) -> (r: Result<(), SaveError>)
        requires
            old(self).wf(),
        ensures
            r is Ok,
            final(self).entries() == old(self).entries().insert(
                encode_utf8(key@),
                json_of(value@),
            ),
            final(self).org() == old(self).org(),
            final(self).wf(),
    {
        let ks: &str = key.as_str();
        let kb = ks.as_bytes_vec();
        let mut buf: Vec<u8> = Vec::new();
        encode_value(value, &mut buf);
        proof {
            assert(buf@ =~= json_of(value@));
            lemma_view_wf(*value);
        }
        map_insert(&mut self.map, kb, buf);
        proof {
            assert forall|k: Seq<u8>| #[trigger] self.entries().contains_key(k) implies stored_ok(
                self.entries()[k],
            ) by {
                if k == encode_utf8(key@) {
                    assert(value_wf(value@) && self.entries()[k] == json_of(value@));
                } else {
                    assert(old(self).entries().contains_key(k));
                }
            }
        }
        Ok(())
    }

    /// Retrieves the component under `key`: the value whose encoding is
    /// stored there, or a missing-key failure if and only if no component
    /// was ever stored under it.
    pub fn get_component(&self, key: &str) -> (r: Result<Value, SaveError>)
        requires
            self.wf(),
        ensures
            match r {
                Ok(v) => self.entries().contains_key(encode_utf8(key@)) && self.entries()[
                    encode_utf8(key@)] == json_of(v@) && value_wf(v@),
                Err(e) => e == SaveError::MissingKey && !self.entries().contains_key(
                    encode_utf8(key@),
                ),
            },
    {
        let kb = key.as_bytes_vec();
        match map_get(&self.map, &kb) {
            Some(bts) => {
                proof {
                    assert(kb@ == encode_utf8(key@));
                    assert(self.entries().contains_key(kb@));
                    assert(stored_ok(self.entries()[kb@]));
                    assert(bts@ == self.entries()[kb@]);
                    let sv = choose|sv: SpecValue| value_wf(sv) && bts@ == json_of(sv);
                    lemma_parse_of_encoding(sv);
                    assert(sp_value(bts@, 0) == Some((sv, bts@.len() as int)));
                }
                match parse_value(bts, 0) {
                    Some((v, n)) => Ok(v),
                    None => {
                        proof {
                            assert(false);
                        }
                        Err(SaveError::Decoding)
                    }
                }
            }
            None => Err(SaveError::MissingKey),
        }
    }

    /// The directory this store saves under: the platform data directory
    /// (or nothing, when it cannot be determined) joined with the
    /// organization name.
    pub fn get_save_dir(&self) -> (r: String)
        ensures
            exists|base: Seq<char>| r@ == base + seq!['/'] + self.org(),
            r@.len() > self.org().len(),
    {
        let base = platform_data_dir();
        let ghost base_chars: Seq<char> = match &base {
            Some(b) => b@,
            None => Seq::<char>::empty(),
        };
        let r = resolve_save_dir(base, self.org_name.as_str());
        proof {
            assert(r@ == base_chars + seq!['/'] + self.org());
        }
        r
    }
}

/// Joins an optional base directory with the organization name. When the
/// base cannot be determined, the path degrades to the organization alone
/// relative to the current directory; it never fails and is never empty.
pub fn resolve_save_dir(base: Option<String>, organization: &str) -> (r: String)
    ensures
        r@ == (match base {
            Some(b) => b@,
            None => Seq::<char>::empty(),
        }) + seq!['/'] + organization@,
        r@.len() > organization@.len(),
{
    let ghost base_chars: Seq<char> = match &base {
        Some(b) => b@,
        None => Seq::<char>::empty(),
    };
    let mut s: String = match base {
        Some(b) => b,
        None => String::new(),
    };
    proof {
        assert(s@ =~= base_chars);
    }
    s.append("/");
    proof {
        reveal_strlit("/");
        assert("/"@ =~= seq!['/']);
    }
    s.append(organization);
    proof {
        assert(s@ =~= base_chars + seq!['/'] + organization@);
    }
    s
}

} // verus!

verus! {

use crate::value::lemma_view_variant;

pub open spec fn org_key() -> Seq<u8> {
    seq![0x6fu8, 0x72u8, 0x67u8]
}

pub open spec fn map_key() -> Seq<u8> {
    seq![0x6du8, 0x61u8, 0x70u8]
}

/// The mapping described by a decoded document's entry list: each pair
/// binds its key's bytes to the canonical encoding of its value, later
/// pairs overwriting earlier ones.
pub open spec fn doc_entry_map(pairs: Seq<(Seq<u8>, SpecValue)>) -> Map<Seq<u8>, Seq<u8>>
    decreases pairs.len(),
{
    if pairs.len() == 0 {
        Map::empty()
    } else {
        doc_entry_map(pairs.drop_last()).insert(pairs.last().0, json_of(pairs.last().1))
    }
}

/// The whole-store document shape: an object holding the organization
/// text under `org` and the entries under `map`.
pub open spec fn doc_shape(v: SpecValue) -> Option<(Seq<u8>, Map<Seq<u8>, Seq<u8>>)> {
    match v {
        SpecValue::Obj(top) => if top.len() == 2 && top[0].0 == org_key() && top[0].1 is Str
            && top[1].0 == map_key() && top[1].1 is Obj {
            Some((top[0].1->Str_0, doc_entry_map(top[1].1->Obj_0)))
        } else {
            None
        },
        _ => None,
    }
}

/// What loading a document yields: the organization characters and the
/// entries, exactly when the bytes decode in full to a well-shaped
/// document whose organization bytes are valid text.
pub open spec fn spec_load(d: Seq<u8>) -> Option<(Seq<char>, Map<Seq<u8>, Seq<u8>>)> {
    match sp_value(d, 0) {
        Some((v, n)) => if n == d.len() {
            match doc_shape(v) {
                Some((orgb, m)) => if valid_utf8(orgb) {
                    Some((decode_utf8(orgb), m))
                } else {
                    None
                },
                None => None,
            }
        } else {
            None
        },
        None => None,
    }
}

/// A listing of a mapping's entries with no repeated key rebuilds exactly
/// that mapping.
proof fn lemma_entry_map_of_listing(ps: Seq<(Seq<u8>, SpecValue)>, m: Map<Seq<u8>, Seq<u8>>)
    requires
        forall|i: int|
            0 <= i < ps.len() ==> m.contains_key((#[trigger] ps[i]).0) && m[ps[i].0] == json_of(
                ps[i].1,
            ),
        forall|k: Seq<u8>|
            #[trigger] m.contains_key(k) ==> exists|i: int|
                0 <= i < ps.len() && (#[trigger] ps[i]).0 == k,
        forall|i: int, j: int| 0 <= i < j < ps.len() ==> ps[i].0 != ps[j].0,
    ensures
        doc_entry_map(ps) == m,
    decreases ps.len(),
{
    if ps.len() == 0 {
        assert forall|k: Seq<u8>| !(#[trigger] m.contains_key(k)) by {
            if m.contains_key(k) {
                let i = choose|i: int| 0 <= i < ps.len() && (#[trigger] ps[i]).0 == k;
            }
        }
        assert(m =~= Map::empty());
    } else {
        let last = ps.last();
        let front = ps.drop_last();
        let m2 = m.remove(last.0);
        assert(forall|i: int| 0 <= i < front.len() ==> #[trigger] front[i] == ps[i]);
        assert forall|i: int| 0 <= i < front.len() implies m2.contains_key(
            (#[trigger] front[i]).0,
        ) && m2[front[i].0] == json_of(front[i].1) by {
            assert(ps[i].0 != last.0);
        }
        assert forall|k: Seq<u8>| #[trigger] m2.contains_key(k) implies exists|i: int|
            0 <= i < front.len() && (#[trigger] front[i]).0 == k by {
            assert(m.contains_key(k));
            let i = choose|i: int| 0 <= i < ps.len() && (#[trigger] ps[i]).0 == k;
            assert(k != last.0);
            assert(i < ps.len() - 1);
            assert(front[i].0 == k);
        }
        lemma_entry_map_of_listing(front, m2);
        assert(doc_entry_map(ps) == m2.insert(last.0, json_of(last.1)));
        assert(m2.insert(last.0, json_of(last.1)) =~= m);
    }
}

impl SaveFile {
    /// Encodes the whole store as one self-describing text document.
    /// Loading the result yields exactly this store's organization and
    /// entries: the persistence round trip holds by this contract together
    /// with the contract of `decode_document`.
    #[verifier::loop_isolation(false)]
    #[verifier::rlimit(100)]
    #[verifier::spinoff_prover]
    pub fn encode_document(&self) -> (d: Vec<u8>)
        requires
            self.wf(),
        ensures
            spec_load(d@) == Some((self.org(), self.entries())),
    {
        let pairs = map_pairs(&self.map);
        let mut entry_vals: Vec<(Vec<u8>, Value)> = Vec::new();
        let n = pairs.len();
        for i in 0..n
            invariant
                entry_vals@.len() == i,
                forall|j: int|
                    0 <= j < i ==> (#[trigger] entry_vals@[j]).0@ == pairs@[j].0@ && json_of(
                        view_of(entry_vals@[j].1),
                    ) == pairs@[j].1@,
        {
            let kb = clone_bytes(&pairs[i].0);
            proof {
                assert(self.entries().contains_key(pairs@[i as int].0@));
                assert(stored_ok(pairs@[i as int].1@));
                let sv = choose|sv: SpecValue|
                    value_wf(sv) && pairs@[i as int].1@ == json_of(sv);
                lemma_parse_of_encoding(sv);
            }
            match parse_value(&pairs[i].1, 0) {
                Some((v, _m)) => {
                    entry_vals.push((kb, v));
                }
                None => {
                    proof {
                        assert(false);
                    }
                }
            }
        }
        let ghost entry_views = views_of_pairs(entry_vals@);
        let orgb = self.org_name.as_str().as_bytes_vec();
        let ghost orgbv = orgb@;
        let mut okey: Vec<u8> = Vec::new();
        okey.push(0x6f);
        okey.push(0x72);
        okey.push(0x67);
        let mut mkey: Vec<u8> = Vec::new();
        mkey.push(0x6d);
        mkey.push(0x61);
        mkey.push(0x70);
        proof {
            assert(okey@ =~= org_key());
            assert(mkey@ =~= map_key());
        }
        let mut top: Vec<(Vec<u8>, Value)> = Vec::new();
        top.push((okey, Value::Str(orgb)));
        top.push((mkey, Value::Obj(entry_vals)));
        let doc = Value::Obj(top);
        let mut out: Vec<u8> = Vec::new();
        encode_value(&doc, &mut out);
        proof {
            lemma_view_wf(doc);
            assert(out@ =~= json_of(doc@));
            assert(bytes_at(out@, 0, json_of(doc@))) by {
                assert(forall|j: int|
                    0 <= j < json_of(doc@).len() ==> out@[0 + j] == #[trigger] json_of(doc@)[j]);
            }
            lemma_sp_of_json(doc@, out@, 0);
            let tv = views_of_pairs(doc->Obj_0@);
            lemma_views_of_pairs(doc->Obj_0@);
            assert(doc@ == SpecValue::Obj(tv));
            assert(tv.len() == 2);
            assert(tv[0] == (org_key(), SpecValue::Str(orgbv)));
            assert(doc->Obj_0@[1].1 is Obj);
            assert(views_of_pairs(doc->Obj_0@[1].1->Obj_0@) == entry_views);
            assert(view_of(doc->Obj_0@[1].1) == SpecValue::Obj(entry_views));
            assert(tv[1] == (map_key(), SpecValue::Obj(entry_views)));
            assert(doc_shape(doc@) == Some((orgbv, doc_entry_map(entry_views))));
            encode_utf8_valid_utf8(self.org_name@);
            encode_utf8_decode_utf8(self.org_name@);
            assert(orgbv == encode_utf8(self.org()));
            lemma_views_of_pairs(entry_vals@);
            assert forall|i: int|
                0 <= i < entry_views.len() implies self.entries().contains_key(
                (#[trigger] entry_views[i]).0,
            ) && self.entries()[entry_views[i].0] == json_of(entry_views[i].1) by {
                assert(entry_views[i] == (entry_vals@[i].0@, view_of(entry_vals@[i].1)));
            }
            assert forall|k: Seq<u8>| #[trigger] self.entries().contains_key(k) implies exists|
                i: int,
            | 0 <= i < entry_views.len() && (#[trigger] entry_views[i]).0 == k by {
                let i = choose|i: int| 0 <= i < pairs@.len() && (#[trigger] pairs@[i]).0@ == k;
                assert((entry_vals@[i]).0@ == pairs@[i].0@);
                assert(entry_views[i] == (entry_vals@[i].0@, view_of(entry_vals@[i].1)));
                assert(entry_views[i].0 == k);
            }
            assert forall|i: int, j: int|
                0 <= i < j < entry_views.len() implies entry_views[i].0 != entry_views[j].0 by {
                assert((entry_vals@[i]).0@ == pairs@[i].0@);
                assert((entry_vals@[j]).0@ == pairs@[j].0@);
                assert(entry_views[i] == (entry_vals@[i].0@, view_of(entry_vals@[i].1)));
                assert(entry_views[j] == (entry_vals@[j].0@, view_of(entry_vals@[j].1)));
            }
            lemma_entry_map_of_listing(entry_views, self.entries());
        }
        out
    }

    /// Decodes a whole-store document: a store holding exactly the
    /// organization and entries the document describes, or a decoding
    /// failure exactly when the bytes do not load as a document.
    #[verifier::loop_isolation(false)]
    pub fn decode_document(d: &Vec<u8>) -> (r: Result<SaveFile, SaveError>)
        ensures
            match r {
                Ok(s) => spec_load(d@) == Some((s.org(), s.entries())) && s.wf(),
                Err(e) => e == SaveError::Decoding && spec_load(d@) is None,
            },
    {
        let parsed = parse_value(d, 0);
        match parsed {
            Some((doc, n)) => {
                if n != d.len() {
                    return Err(SaveError::Decoding);
                }
                match doc {
                    Value::Obj(top) => {
                        let ghost top_views = views_of_pairs(top@);
                        proof {
                            lemma_views_of_pairs(top@);
                        }
                        if top.len() != 2 {
                            return Err(SaveError::Decoding);
                        }
                        let mut okey: Vec<u8> = Vec::new();
                        okey.push(0x6f);
                        okey.push(0x72);
                        okey.push(0x67);
                        let mut mkey: Vec<u8> = Vec::new();
                        mkey.push(0x6d);
                        mkey.push(0x61);
                        mkey.push(0x70);
                        proof {
                            assert(okey@ =~= org_key());
                            assert(mkey@ =~= map_key());
                        }
                        if !bytes_eq(&top[0].0, &okey) {
                            proof {
                                assert(top_views[0].0 != org_key());
                            }
                            return Err(SaveError::Decoding);
                        }
                        if !bytes_eq(&top[1].0, &mkey) {
                            return Err(SaveError::Decoding);
                        }
                        let mut top = top;
                        let second = top.remove(1);
                        let first = top.remove(0);
                        let (_k0, v0) = first;
                        let (_k1, v1) = second;
                        proof {
                            lemma_view_variant(v0);
                            lemma_view_variant(v1);
                            assert(top_views[0].1 == view_of(v0));
                            assert(top_views[1].1 == view_of(v1));
                        }
                        match (v0, v1) {
                            (Value::Str(orgb), Value::Obj(entries)) => {
                                let ghost orgbv = orgb@;
                                let ghost evs = views_of_pairs(entries@);
                                proof {
                                    lemma_views_of_pairs(entries@);
                                    assert(doc_shape(doc@) == Some((orgbv, doc_entry_map(evs))));
                                }
                                match bytes_to_string(orgb) {
                                    Some(orgs) => {
                                        let mut m = map_new();
                                        let en = entries.len();
                                        for i in 0..en
                                            invariant
                                                map_contents(m) == doc_entry_map(
                                                    evs.subrange(0, i as int),
                                                ),
                                                forall|k: Seq<u8>|
                                                    #[trigger] map_contents(m).contains_key(k)
                                                        ==> stored_ok(map_contents(m)[k]),
                                        {
                                            let kb = clone_bytes(&entries[i].0);
                                            let mut buf: Vec<u8> = Vec::new();
                                            encode_value(&entries[i].1, &mut buf);
                                            proof {
                                                lemma_view_wf(entries@[i as int].1);
                                                assert(buf@ =~= json_of(
                                                    view_of(entries@[i as int].1),
                                                ));
                                            }
                                            map_insert(&mut m, kb, buf);
                                            proof {
                                                assert(evs.subrange(0, i + 1).drop_last() =~= evs
                                                    .subrange(0, i as int));
                                                assert(evs.subrange(0, i + 1).last() == evs[
                                                    i as int]);
                                                assert(evs[i as int] == (
                                                    entries@[i as int].0@,
                                                    view_of(entries@[i as int].1),
                                                ));
                                                assert(map_contents(m) =~= doc_entry_map(
                                                    evs.subrange(0, i + 1),
                                                ));
                                            }
                                        }
                                        proof {
                                            assert(evs.subrange(0, en as int) =~= evs);
                                        }
                                        let s = SaveFile { map: m, org_name: orgs };
                                        Ok(s)
                                    }
                                    None => Err(SaveError::Decoding),
                                }
                            }
                            (o2, m2) => {
                                proof {
                                    lemma_view_variant(o2);
                                    lemma_view_variant(m2);
                                    assert(doc_shape(doc@) is None);
                                }
                                Err(SaveError::Decoding)
                            }
                        }
                    }
                    other => {
                        proof {
                            lemma_view_variant(other);
                            assert(doc_shape(other@) is None);
                        }
                        Err(SaveError::Decoding)
                    }
                }
            }
            None => Err(SaveError::Decoding),
        }
    }
}

/// Round trip at the store level: once a value's encoding is stored under
/// a key, that key holds that encoding, and no other well-formed value has
/// the same encoding — so retrieval can only return the stored value.
pub proof fn lemma_component_round_trip(
    entries: Map<Seq<u8>, Seq<u8>>,
    k: Seq<u8>,
    v: SpecValue,
)
    requires
        value_wf(v),
    ensures
        entries.insert(k, json_of(v)).contains_key(k),
        entries.insert(k, json_of(v))[k] == json_of(v),
        forall|w: SpecValue|
            value_wf(w) && json_of(w) == entries.insert(k, json_of(v))[k] ==> w == v,
{
    assert forall|w: SpecValue|
        value_wf(w) && json_of(w) == entries.insert(k, json_of(v))[k] implies w == v by {
        lemma_encoding_injective(w, v);
    }
}

/// Overwrite: inserting twice under one key keeps only the second value.
pub proof fn lemma_overwrite(entries: Map<Seq<u8>, Seq<u8>>, k: Seq<u8>, b1: Seq<u8>, b2: Seq<u8>)
    ensures
        entries.insert(k, b1).insert(k, b2) == entries.insert(k, b2),
        entries.insert(k, b1).insert(k, b2)[k] == b2,
{
    assert(entries.insert(k, b1).insert(k, b2) =~= entries.insert(k, b2));
}

/// Independence: inserting under one key leaves every other key's entry
/// exactly as it was.
pub proof fn lemma_other_keys_kept(
    entries: Map<Seq<u8>, Seq<u8>>,
    k1: Seq<u8>,
    k2: Seq<u8>,
    b: Seq<u8>,
)
    requires
        k1 != k2,
    ensures
        entries.insert(k2, b).contains_key(k1) == entries.contains_key(k1),
        entries.contains_key(k1) ==> entries.insert(k2, b)[k1] == entries[k1],
{
}

} // verus!

