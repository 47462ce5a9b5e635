use crate::protocol::Packet;
use crate::text::{latin1, latin1_chars, string_of};
use dashmap::DashMap;
use vstd::prelude::*;
use vstd::set_lib::lemma_len_subset;

verus! {

#[verifier::external_type_specification]
#[verifier::external_body]
#[verifier::reject_recursive_types(K)]
#[verifier::reject_recursive_types(V)]
#[verifier::reject_recursive_types(S)]
pub struct ExDashMap<K, V, S>(DashMap<K, V, S>);

#[verifier::external_type_specification]
#[verifier::external_body]
pub struct ExJsonValue(serde_json::Value);

/// The map from each tag to its id.
pub type TagMap = DashMap<String, String>;

/// The map from each id to the bytes gathered for it.
pub type ChunkMap = DashMap<String, Vec<u8>>;

/// The entries of a string-to-string `DashMap` (tag to id, or id to tag),
/// keys and values taken by their characters.
pub uninterp spec fn tag_ids(m: DashMap<String, String>) -> Map<Seq<char>, Seq<char>>;

/// The id-to-bytes entries of a `DashMap`, keys taken by their characters.
pub uninterp spec fn pending_chunks(m: DashMap<String, Vec<u8>>) -> Map<Seq<char>, Seq<u8>>;

/// `DashMap::new` for the tag-to-id map: it starts empty.
#[verifier::external_body]
fn new_tag_map() -> (m: TagMap)
    ensures
        tag_ids(m).dom().is_empty(),
{
    DashMap::new()
}

/// `DashMap::new` for the id-to-bytes map: it starts empty.
#[verifier::external_body]
fn new_chunk_map() -> (m: ChunkMap)
    ensures
        pending_chunks(m).dom().is_empty(),
{
    DashMap::new()
}

/// `DashMap::get`, the value copied out of the guard: the id recorded for
/// `tag`, if any.
#[verifier::external_body]
fn lookup_id(m: &DashMap<String, String>, tag: &str) -> (r: Option<String>)
    ensures
        r is Some <==> tag_ids(*m).contains_key(tag@),
        r matches Some(id) ==> id@ == tag_ids(*m)[tag@],
{
    m.get(tag).map(|entry| entry.value().clone())
}

/// `DashMap::insert`: records `id` for `tag`, replacing any earlier id.
#[verifier::external_body]
fn record_id(m: &mut DashMap<String, String>, tag: String, id: String)
    ensures
        tag_ids(*final(m)) == tag_ids(*old(m)).insert(tag@, id@),
{
    m.insert(tag, id);
}

/// The bytes held for `id`, none when it has no entry.
pub open spec fn pending(chunks: Map<Seq<char>, Seq<u8>>, id: Seq<char>) -> Seq<u8> {
    if chunks.contains_key(id) {
        chunks[id]
    } else {
        Seq::empty()
    }
}

/// `DashMap::entry(id).or_default().extend_from_slice(chunk)`: appends
/// `chunk` to the bytes held for `id`, starting from none.
#[verifier::external_body]
fn append_chunk(m: &mut DashMap<String, Vec<u8>>, id: String, chunk: &[u8])
    ensures
        pending_chunks(*final(m)) == pending_chunks(*old(m)).insert(
            id@,
            pending(pending_chunks(*old(m)), id@) + chunk@,
        ),
{
    m.entry(id).or_default().extend_from_slice(chunk);
}

/// `DashMap::get`, the length read through the guard: how many bytes are
/// held for `id`, if it has an entry.
#[verifier::external_body]
fn held_len(m: &DashMap<String, Vec<u8>>, id: &str) -> (r: Option<usize>)
    ensures
        r is Some <==> pending_chunks(*m).contains_key(id@),
        r matches Some(n) ==> n == pending_chunks(*m)[id@].len(),
{
    m.get(id).map(|entry| entry.value().len())
}

/// `DashMap::remove`, keeping the value: takes out the bytes held for `id`.
#[verifier::external_body]
fn take_chunks(m: &mut DashMap<String, Vec<u8>>, id: &str) -> (r: Option<Vec<u8>>)
    ensures
        pending_chunks(*final(m)) == pending_chunks(*old(m)).remove(id@),
        r is Some <==> pending_chunks(*old(m)).contains_key(id@),
        r matches Some(bytes) ==> bytes@ == pending_chunks(*old(m))[id@],
{
    m.remove(id).map(|(_, bytes)| bytes)
}

/// A character of the URL-safe alphabet of `nanoid`.
pub open spec fn is_id_char(c: char) -> bool {
    ||| c == '_'
    ||| c == '-'
    ||| ('0' <= c <= '9')
    ||| ('a' <= c <= 'z')
    ||| ('A' <= c <= 'Z')
}

/// How many characters the id of a tag has.
pub const ID_LEN: usize = 8;

/// `nanoid::format` with the crate's default random source and URL-safe
/// alphabet, as its `nanoid!` macro calls it: `size` characters of that
/// alphabet, drawn at random. It panics only when the operating system
/// gives no random bytes.
#[verifier::external_body]
fn new_id(size: usize) -> (id: String)
    ensures
        id@.len() == size,
        forall|i: int| 0 <= i < size ==> is_id_char(#[trigger] id@[i]),
{
    nanoid::format(nanoid::rngs::default, &nanoid::alphabet::SAFE, size)
}

/// How many ids of `ID_LEN` URL-safe characters there are: 64 to the eighth.
pub const ID_SPACE: u64 = 281474976710656;

/// 64 to the power `len`.
pub open spec fn pow64(len: nat) -> nat
    decreases len,
{
    if len == 0 {
        1
    } else {
        64 * pow64((len - 1) as nat)
    }
}

/// The code of the URL-safe character that stands for the digit `d` of a
/// base-64 number: `0-9`, `a-z`, `A-Z`, `_`, `-`.
pub open spec fn id_code(d: nat) -> nat {
    if d < 10 {
        d + 48
    } else if d < 36 {
        d + 87
    } else if d < 62 {
        d + 29
    } else if d == 62 {
        95
    } else {
        45
    }
}

/// The URL-safe character of a base-64 digit.
pub open spec fn id_digit(d: nat) -> char {
    id_code(d) as char
}

/// The last `len` base-64 digits of `k`, most significant first.
pub open spec fn base64_digits(k: nat, len: nat) -> Seq<char>
    decreases len,
{
    if len == 0 {
        Seq::empty()
    } else {
        base64_digits(k / 64, (len - 1) as nat).push(id_digit(k % 64))
    }
}

/// The id that stands in for the `k`-th candidate when a drawn id is taken.
pub open spec fn candidate(k: nat) -> Seq<char> {
    base64_digits(k, ID_LEN as nat)
}

proof fn lemma_id_digit(a: nat, b: nat)
    requires
        a < 64,
        b < 64,
    ensures
        is_id_char(id_digit(a)),
        id_digit(a) == id_digit(b) ==> a == b,
{
    assert((id_digit(a) as nat) == id_code(a));
    assert((id_digit(b) as nat) == id_code(b));
}

proof fn lemma_base64_digits(k: nat, len: nat)
    ensures
        base64_digits(k, len).len() == len,
        forall|i: int| 0 <= i < len ==> is_id_char(#[trigger] base64_digits(k, len)[i]),
    decreases len,
{
    if len > 0 {
        lemma_base64_digits(k / 64, (len - 1) as nat);
        lemma_id_digit(k % 64, k % 64);
        let s = base64_digits(k, len);
        assert forall|i: int| 0 <= i < len implies is_id_char(#[trigger] s[i]) by {
            if i < len - 1 {
                assert(s[i] == base64_digits(k / 64, (len - 1) as nat)[i]);
            }
        }
    }
}

proof fn lemma_base64_injective(a: nat, b: nat, len: nat)
    requires
        a < pow64(len),
        b < pow64(len),
        base64_digits(a, len) == base64_digits(b, len),
    ensures
        a == b,
    decreases len,
{
    if len > 0 {
        let sa = base64_digits(a, len);
        let sb = base64_digits(b, len);
        assert(sa.last() == sb.last());
        lemma_id_digit(a % 64, b % 64);
        assert(sa.drop_last() =~= base64_digits(a / 64, (len - 1) as nat));
        assert(sb.drop_last() =~= base64_digits(b / 64, (len - 1) as nat));
        let p = pow64((len - 1) as nat);
        assert(a / 64 < p) by (nonlinear_arith)
            requires
                a < 64 * p,
        ;
        assert(b / 64 < p) by (nonlinear_arith)
            requires
                b < 64 * p,
        ;
        lemma_base64_injective(a / 64, b / 64, (len - 1) as nat);
        assert(a == 64 * (a / 64) + a % 64) by (nonlinear_arith);
        assert(b == 64 * (b / 64) + b % 64) by (nonlinear_arith);
    }
}

/// Every candidate is an id of `ID_LEN` URL-safe characters, and the first
/// `ID_SPACE` candidates are all different.
proof fn lemma_candidates(a: nat, b: nat)
    ensures
        candidate(a).len() == ID_LEN,
        forall|i: int| 0 <= i < ID_LEN ==> is_id_char(#[trigger] candidate(a)[i]),
        a < ID_SPACE && b < ID_SPACE && a != b ==> candidate(a) != candidate(b),
{
    lemma_base64_digits(a, ID_LEN as nat);
    reveal_with_fuel(pow64, 9);
    assert(pow64(8) == ID_SPACE);
    if a < ID_SPACE && b < ID_SPACE && candidate(a) == candidate(b) {
        lemma_base64_injective(a, b, ID_LEN as nat);
    }
}

/// When the first `k + 1` candidates are all in a finite set, the set has
/// at least `k + 1` members.
proof fn lemma_taken_candidates(taken: Set<Seq<char>>, k: nat)
    requires
        taken.finite(),
        k < ID_SPACE,
        forall|j: nat| j <= k ==> taken.contains(#[trigger] candidate(j)),
    ensures
        k + 1 <= taken.len(),
{
    let cands = Seq::new((k + 1) as nat, |j: int| candidate(j as nat));
    assert forall|i: int, j: int| 0 <= i < cands.len() && 0 <= j < cands.len() && i != j implies cands[i]
        != cands[j] by {
        lemma_candidates(i as nat, j as nat);
    }
    assert(cands.no_duplicates());
    cands.unique_seq_to_set();
    assert forall|x: Seq<char>| cands.to_set().contains(x) implies taken.contains(x) by {
        let i = cands.index_of(x);
        assert(taken.contains(candidate(i as nat)));
    }
    lemma_len_subset(cands.to_set(), taken);
}

fn push_base64(out: &mut Vec<char>, k: u64, len: usize)
    ensures
        final(out)@ == old(out)@ + base64_digits(k as nat, len as nat),
    decreases len,
{
    if len > 0 {
        push_base64(out, k / 64, len - 1);
        let d: u64 = k % 64;
        let c: char = if d < 10 {
            ((d + 48) as u8) as char
        } else if d < 36 {
            ((d + 87) as u8) as char
        } else if d < 62 {
            ((d + 29) as u8) as char
        } else if d == 62 {
            '_'
        } else {
            '-'
        };
        proof {
            assert((c as nat) == id_code(d as nat));
            assert((id_digit(d as nat) as nat) == id_code(d as nat));
        }
        out.push(c);
        assert(base64_digits(k as nat, len as nat) == base64_digits(k as nat / 64, (len - 1) as nat).push(
            id_digit(k as nat % 64),
        ));
    }
}

/// The `k`-th candidate id.
fn candidate_id(k: u64) -> (id: String)
    ensures
        id@ == candidate(k as nat),
{
    let mut v: Vec<char> = Vec::new();
    push_base64(&mut v, k, ID_LEN);
    assert(Seq::<char>::empty() + candidate(k as nat) =~= candidate(k as nat));
    string_of(v.as_slice())
}

/// Whether `serde_json` reads the bytes as one JSON value.
pub uninterp spec fn json_accepts(bytes: Seq<u8>) -> bool;

/// The value `serde_json` reads from the bytes, where it reads one.
pub uninterp spec fn json_value(bytes: Seq<u8>) -> serde_json::Value;

/// A JSON whitespace byte: space, tab, line feed or carriage return.
pub open spec fn is_json_ws(b: u8) -> bool {
    b == 32 || b == 9 || b == 10 || b == 13
}

/// One of the six structural bytes of JSON: `{ } [ ] , :`.
pub open spec fn is_json_structural(b: u8) -> bool {
    b == 123 || b == 125 || b == 91 || b == 93 || b == 44 || b == 58
}

/// The rest of a JSON text with its insignificant whitespace dropped:
/// `in_str` and `esc` tell whether the scan stands inside a string, right
/// after a backslash; `pend` holds the whitespace seen since the last token,
/// dropped when a structural byte or the end follows; `after_struct` tells
/// whether the last token was a structural byte or the start.
pub open spec fn compact_from(
    b: Seq<u8>,
    in_str: bool,
    esc: bool,
    pend: Seq<u8>,
    after_struct: bool,
) -> Seq<u8>
    decreases b.len(),
{
    if b.len() == 0 {
        Seq::empty()
    } else {
        let c = b[0];
        let rest = b.skip(1);
        if in_str {
            seq![c] + compact_from(rest, !(c == 34 && !esc), !esc && c == 92, Seq::empty(), false)
        } else if is_json_ws(c) {
            if after_struct {
                compact_from(rest, false, false, Seq::empty(), true)
            } else {
                compact_from(rest, false, false, pend.push(c), false)
            }
        } else if is_json_structural(c) {
            seq![c] + compact_from(rest, false, false, Seq::empty(), true)
        } else {
            pend + seq![c] + compact_from(rest, c == 34, false, Seq::empty(), false)
        }
    }
}

/// A JSON text without the whitespace that JSON allows at its start and end
/// and around each structural byte, strings left as they are.
pub open spec fn json_compact(b: Seq<u8>) -> Seq<u8> {
    compact_from(b, false, false, Seq::empty(), true)
}

/// `serde_json::from_slice` into a `serde_json::Value`, the error dropped.
/// Whitespace at the start and end and around the structural bytes is
/// insignificant, as in every JSON text.
#[verifier::external_body]
fn parse_json(bytes: &[u8]) -> (r: Option<serde_json::Value>)
    ensures
        r is Some <==> json_accepts(bytes@),
        r matches Some(v) ==> v == json_value(bytes@),
        r is Some <==> json_accepts(json_compact(bytes@)),
        r matches Some(v) ==> v == json_value(json_compact(bytes@)),
{
    serde_json::from_slice::<serde_json::Value>(bytes).ok()
}

/// What a completed message carries.
pub enum MessageData {
    /// The assembled bytes, read as JSON.
    Json(serde_json::Value),
    /// The assembled bytes were no JSON: each byte taken as the character
    /// of the same number.
    InvalidJson { message: String },
}

/// A completed message, ready to be routed.
pub struct SaveMessage {
    pub id: String,
    pub tag: String,
    pub tag_app: String,
    pub tag_url: String,
    pub data: MessageData,
}

/// Gathers the chunks of each tag until its last chunk arrives.
pub struct Assembler {
    registry: IdRegistry,
    packages: DashMap<String, Vec<u8>>,
}

/// The id of each tag, and which ids are taken.
struct IdRegistry {
    tag_to_id: DashMap<String, String>,
    /// The tag each id was given to.
    id_owner: DashMap<String, String>,
    /// How many ids were handed out, at most `u64::MAX`.
    issued: u64,
}

impl IdRegistry {
    /// Every id given to a tag is known as taken, and the ids taken are
    /// finitely many, no more than were handed out.
    #[verifier::type_invariant]
    spec fn ids_accounted(self) -> bool {
        &&& forall|t: Seq<char>| #[trigger]
            tag_ids(self.tag_to_id).contains_key(t) ==> tag_ids(self.id_owner).contains_key(
                tag_ids(self.tag_to_id)[t],
            )
        &&& tag_ids(self.id_owner).dom().finite()
        &&& self.issued == u64::MAX || tag_ids(self.id_owner).dom().len() <= self.issued
    }

    /// Gives a new tag an id: a random one, or, when that one is already
    /// taken and fewer than `ID_SPACE` ids were handed out, the first
    /// candidate not taken yet.
    fn give_id(&mut self, tag: String) -> (id: String)
        requires
            !tag_ids(old(self).tag_to_id).contains_key(tag@),
        ensures
            tag_ids(final(self).tag_to_id) == tag_ids(old(self).tag_to_id).insert(tag@, id@),
            id@.len() == ID_LEN,
            forall|i: int| 0 <= i < ID_LEN ==> is_id_char(#[trigger] id@[i]),
            old(self).issued < ID_SPACE ==> forall|t: Seq<char>| #[trigger]
                tag_ids(old(self).tag_to_id).contains_key(t) ==> tag_ids(old(self).tag_to_id)[t] != id@,
            final(self).issued <= old(self).issued + 1,
    {
        proof {
            use_type_invariant(&*self);
        }
        let ghost owners = tag_ids(self.id_owner);
        let mut id = new_id(ID_LEN);
        if self.issued < ID_SPACE && lookup_id(&self.id_owner, id.as_str()).is_some() {
            let mut k: u64 = 0;
            loop
                invariant
                    owners == tag_ids(self.id_owner),
                    owners.dom().finite(),
                    self.issued < ID_SPACE,
                    owners.dom().len() <= self.issued,
                    k <= self.issued,
                    forall|j: nat| j < k ==> owners.contains_key(#[trigger] candidate(j)),
                ensures
                    !owners.contains_key(id@),
                    id@.len() == ID_LEN,
                    forall|i: int| 0 <= i < ID_LEN ==> is_id_char(#[trigger] id@[i]),
                decreases self.issued - k,
            {
                let c = candidate_id(k);
                proof {
                    lemma_candidates(k as nat, k as nat);
                }
                if lookup_id(&self.id_owner, c.as_str()).is_none() {
                    id = c;
                    break;
                }
                proof {
                    lemma_taken_candidates(owners.dom(), k as nat);
                }
                k = k + 1;
            }
        }
        // Take both maps out, so that the registry stays consistent while
        // they change.
        let mut ids = new_tag_map();
        let mut taken = new_tag_map();
        proof {
            assert(tag_ids(ids).dom() =~= Set::<Seq<char>>::empty());
            assert(tag_ids(taken).dom() =~= Set::<Seq<char>>::empty());
        }
        std::mem::swap(&mut ids, &mut self.tag_to_id);
        std::mem::swap(&mut taken, &mut self.id_owner);
        let ghost before_ids = tag_ids(ids);
        if self.issued < u64::MAX {
            self.issued = self.issued + 1;
        }
        record_id(&mut taken, id.clone(), tag.clone());
        record_id(&mut ids, tag, id.clone());
        proof {
            vstd::set::axiom_set_insert_len(owners.dom(), id@);
            assert(tag_ids(taken).dom() =~= owners.dom().insert(id@));
        }
        std::mem::swap(&mut taken, &mut self.id_owner);
        std::mem::swap(&mut ids, &mut self.tag_to_id);
        id
    }

}

/// No two tags share an id.
pub open spec fn distinct_ids(ids: Map<Seq<char>, Seq<char>>) -> bool {
    forall|t1: Seq<char>, t2: Seq<char>|
        #![trigger ids[t1], ids[t2]]
        ids.contains_key(t1) && ids.contains_key(t2) && t1 != t2 ==> ids[t1] != ids[t2]
}

/// The bytes held after one chunk: appended to what is held for `id`, or,
/// on the last chunk, handed out with it and dropped.
pub open spec fn after_chunk(
    chunks: Map<Seq<char>, Seq<u8>>,
    id: Seq<char>,
    payload: Seq<u8>,
    end: bool,
) -> Map<Seq<char>, Seq<u8>> {
    if end {
        chunks.remove(id)
    } else {
        chunks.insert(id, pending(chunks, id) + payload)
    }
}

/// The bytes a chunk completes: on the last chunk, what was held for `id`
/// followed by the chunk, unless that is empty.
pub open spec fn completed(
    chunks: Map<Seq<char>, Seq<u8>>,
    id: Seq<char>,
    payload: Seq<u8>,
    end: bool,
) -> Option<Seq<u8>> {
    if end && (pending(chunks, id) + payload).len() > 0 {
        Some(pending(chunks, id) + payload)
    } else {
        None
    }
}

/// The parts joined in order.
pub open spec fn concat_all(parts: Seq<Seq<u8>>) -> Seq<u8>
    decreases parts.len(),
{
    if parts.len() == 0 {
        Seq::empty()
    } else {
        concat_all(parts.drop_last()) + parts.last()
    }
}

/// The bytes held after each of `parts` arrived under `id` as a chunk that
/// is not the last.
pub open spec fn feed_chunks(chunks: Map<Seq<char>, Seq<u8>>, id: Seq<char>, parts: Seq<Seq<u8>>) -> Map<
    Seq<char>,
    Seq<u8>,
>
    decreases parts.len(),
{
    if parts.len() == 0 {
        chunks
    } else {
        after_chunk(feed_chunks(chunks, id, parts.drop_last()), id, parts.last(), false)
    }
}

/// Chunks gather in the order they arrive: after any run of chunks that are
/// not the last, the last chunk completes the message with all of them in
/// order, then the last chunk itself, and nothing stays held for the id.
pub proof fn lemma_chunks_gather_in_order(
    chunks: Map<Seq<char>, Seq<u8>>,
    id: Seq<char>,
    parts: Seq<Seq<u8>>,
    last: Seq<u8>,
)
    ensures
        pending(feed_chunks(chunks, id, parts), id) == pending(chunks, id) + concat_all(parts),
        ({
            let whole = pending(chunks, id) + concat_all(parts) + last;
            completed(feed_chunks(chunks, id, parts), id, last, true) == if whole.len() > 0 {
                Some(whole)
            } else {
                None
            }
        }),
        !after_chunk(feed_chunks(chunks, id, parts), id, last, true).contains_key(id),
    decreases parts.len(),
{
    if parts.len() == 0 {
        assert(pending(chunks, id) + concat_all(parts) =~= pending(chunks, id));
    } else {
        lemma_chunks_gather_in_order(chunks, id, parts.drop_last(), last);
        assert(pending(chunks, id) + concat_all(parts) =~= pending(chunks, id) + concat_all(
            parts.drop_last(),
        ) + parts.last());
    }
}

/// Chunks under one id leave what is held for every other id as it was.
pub proof fn lemma_other_ids_untouched(
    chunks: Map<Seq<char>, Seq<u8>>,
    id: Seq<char>,
    other: Seq<char>,
    payload: Seq<u8>,
    end: bool,
)
    requires
        id != other,
    ensures
        pending(after_chunk(chunks, id, payload, end), other) == pending(chunks, other),
{
}

/// While no two tags share an id, a chunk of one tag leaves the bytes held
/// for every other tag as they were, so chunks of different tags never mix.
pub proof fn lemma_tags_keep_chunks_apart(
    ids: Map<Seq<char>, Seq<char>>,
    chunks: Map<Seq<char>, Seq<u8>>,
    tag: Seq<char>,
    other: Seq<char>,
    payload: Seq<u8>,
    end: bool,
)
    requires
        distinct_ids(ids),
        ids.contains_key(tag),
        ids.contains_key(other),
        tag != other,
    ensures
        pending(after_chunk(chunks, ids[tag], payload, end), ids[other]) == pending(
            chunks,
            ids[other],
        ),
{
    lemma_other_ids_untouched(chunks, ids[tag], ids[other], payload, end);
}

/// `"error|"` followed by the tag: the tag of a message that was no JSON.
pub open spec fn error_tag(tag: Seq<char>) -> Seq<char> {
    seq!['e', 'r', 'r', 'o', 'r', '|'] + tag
}

/// `m` is the message that the bytes `data`, completed under `id`, make of
/// the packet `p`.
pub open spec fn is_message_of(m: SaveMessage, p: Packet, id: Seq<char>, data: Seq<u8>) -> bool {
    &&& m.id@ == id
    &&& m.tag_app@ == p.tag_app@
    &&& m.tag_url@ == p.tag_url@
    &&& json_accepts(data) ==> m.tag@ == p.tag@ && (m.data matches MessageData::Json(v) && v
        == json_value(data))
    &&& !json_accepts(data) ==> m.tag@ == error_tag(p.tag@) && (m.data matches MessageData::InvalidJson {
        message,
    } && message@ == latin1(data))
    &&& json_accepts(json_compact(data)) ==> (m.data matches MessageData::Json(v) && v
        == json_value(json_compact(data)))
    &&& !json_accepts(json_compact(data)) ==> m.data is InvalidJson
}

/// Whitespace that JSON allows around its tokens does not change a message:
/// two messages whose gathered bytes differ only by such whitespace are both
/// JSON or both error records, and as JSON they carry the same value.
pub proof fn lemma_json_whitespace_is_insignificant(
    m1: SaveMessage,
    p1: Packet,
    id1: Seq<char>,
    data1: Seq<u8>,
    m2: SaveMessage,
    p2: Packet,
    id2: Seq<char>,
    data2: Seq<u8>,
)
    requires
        is_message_of(m1, p1, id1, data1),
        is_message_of(m2, p2, id2, data2),
        json_compact(data1) == json_compact(data2),
    ensures
        (m1.data is Json) == (m2.data is Json),
        m1.data matches MessageData::Json(v1) ==> (m2.data matches MessageData::Json(v2) && v1
            == v2),
{
}

impl Assembler {
    /// How many ids were handed out.
    pub closed spec fn issued(&self) -> nat {
        self.registry.issued as nat
    }

    /// The id recorded for each tag.
    pub closed spec fn ids(&self) -> Map<Seq<char>, Seq<char>> {
        tag_ids(self.registry.tag_to_id)
    }

    /// The bytes held for each id.
    pub closed spec fn chunks(&self) -> Map<Seq<char>, Seq<u8>> {
        pending_chunks(self.packages)
    }

    /// An assembler that knows no tag and holds no bytes.
    pub fn new() -> (a: Self)
        ensures
            a.ids() == Map::<Seq<char>, Seq<char>>::empty(),
            a.chunks() == Map::<Seq<char>, Seq<u8>>::empty(),
            a.issued() == 0,
    {
        let owners = new_tag_map();
        proof {
            assert(tag_ids(owners).dom() =~= Set::<Seq<char>>::empty());
        }
        let a = Assembler {
            registry: IdRegistry { tag_to_id: new_tag_map(), id_owner: owners, issued: 0 },
            packages: new_chunk_map(),
        };
        assert(a.ids() =~= Map::<Seq<char>, Seq<char>>::empty());
        assert(a.chunks() =~= Map::<Seq<char>, Seq<u8>>::empty());
        a
    }

    /// How many bytes are held for `tag`, none when it is unknown.
    pub fn held_bytes(&self, tag: &str) -> (n: usize)
        ensures
            self.ids().contains_key(tag@) ==> n == pending(
                self.chunks(),
                self.ids()[tag@],
            ).len(),
            !self.ids().contains_key(tag@) ==> n == 0,
    {
        match lookup_id(&self.registry.tag_to_id, tag) {
            None => 0,
            Some(id) => match held_len(&self.packages, id.as_str()) {
                Some(n) => n,
                None => 0,
            },
        }
    }

    /// Takes in one packet. A tag seen for the first time gets a fresh id of
    /// `ID_LEN` URL-safe characters, which it keeps. A chunk that is not the
    /// last is held under that id; the last one completes the message, which
    /// is handed out unless it is empty.
    pub fn on_packet(&mut self, packet: Packet) -> (out: Option<SaveMessage>)
        ensures
            final(self).ids().contains_key(packet.tag@),
            forall|t: Seq<char>| #[trigger]
                old(self).ids().contains_key(t) ==> final(self).ids().contains_key(t)
                    && final(self).ids()[t] == old(self).ids()[t],
            old(self).ids().contains_key(packet.tag@) ==> final(self).ids() == old(self).ids(),
            !old(self).ids().contains_key(packet.tag@) ==> {
                let id = final(self).ids()[packet.tag@];
                &&& final(self).ids() == old(self).ids().insert(packet.tag@, id)
                &&& id.len() == ID_LEN
                &&& forall|i: int| 0 <= i < ID_LEN ==> is_id_char(#[trigger] id[i])
                &&& old(self).issued() < ID_SPACE ==> forall|t: Seq<char>| #[trigger]
                    old(self).ids().contains_key(t) ==> old(self).ids()[t] != id
            },
            distinct_ids(old(self).ids()) && old(self).issued() < ID_SPACE ==> distinct_ids(
                final(self).ids(),
            ),
            final(self).issued() <= old(self).issued() + 1,
            final(self).chunks() == after_chunk(
                old(self).chunks(),
                final(self).ids()[packet.tag@],
                packet.payload@,
                packet.end_flag,
            ),
            out is Some <==> completed(
                old(self).chunks(),
                final(self).ids()[packet.tag@],
                packet.payload@,
                packet.end_flag,
            ) is Some,
            out matches Some(m) ==> is_message_of(
                m,
                packet,
                final(self).ids()[packet.tag@],
                completed(
                    old(self).chunks(),
                    final(self).ids()[packet.tag@],
                    packet.payload@,
                    packet.end_flag,
                )->0,
            ),
    {
        let id = match lookup_id(&self.registry.tag_to_id, packet.tag.as_str()) {
            Some(id) => id,
            None => self.registry.give_id(packet.tag.clone()),
        };
        let ghost id_view = id@;
        let ghost before = pending_chunks(self.packages);
        if !packet.end_flag {
            append_chunk(&mut self.packages, id, packet.payload.as_slice());
            return None;
        }
        append_chunk(&mut self.packages, id.clone(), packet.payload.as_slice());
        let data = match take_chunks(&mut self.packages, id.as_str()) {
            Some(data) => data,
            None => {
                return None;
            },
        };
        assert(pending_chunks(self.packages) =~= before.remove(id_view));
        assert(data@ == pending(before, id_view) + packet.payload@);
        if data.len() == 0 {
            return None;
        }
        let parsed = parse_json(data.as_slice());
        Some(complete_message(packet, id, data.as_slice(), parsed))
    }
}

/// The message that the completed bytes `data` of `packet`'s tag make under
/// `id`, given what `serde_json` read from them: the value under the tag
/// when it read one, else the bytes as text under `"error|"` and the tag.
pub fn complete_message(packet: Packet, id: String, data: &[u8], parsed: Option<
    serde_json::Value,
>) -> (m: SaveMessage)
    ensures
        m.id@ == id@,
        m.tag_app@ == packet.tag_app@,
        m.tag_url@ == packet.tag_url@,
        match parsed {
            Some(v) => m.tag@ == packet.tag@ && (m.data matches MessageData::Json(w) && w == v),
            None => m.tag@ == error_tag(packet.tag@) && (m.data matches MessageData::InvalidJson {
                message,
            } && message@ == latin1(data@)),
        },
{
    match parsed {
        Some(value) => SaveMessage {
            id,
            tag: packet.tag,
            tag_app: packet.tag_app,
            tag_url: packet.tag_url,
            data: MessageData::Json(value),
        },
        None => {
            let tag = String::from_str("error|").concat(packet.tag.as_str());
            proof {
                reveal_strlit("error|");
            }
            let message = string_of(latin1_chars(data).as_slice());
            SaveMessage {
                id,
                tag,
                tag_app: packet.tag_app,
                tag_url: packet.tag_url,
                data: MessageData::InvalidJson { message },
            }
        },
    }
}

} // verus!
