//! Who gets an event, under which id, and whether it is kept until it is done.

use vstd::prelude::*;
use vstd::string::*;
use vstd::utf8::encode_utf8;
use crate::cutting::{law_split_join, lemma_split_between, split};
use crate::config::{department_names, insert_name, DepartmentDecl};
use crate::delivery_types::{
    copy_source, source_view, DeliveryRecord, DeliveryView, SourceKind, SourceRef, SourceView,
};
use crate::digest::{sha256, sha256_digest};
use crate::event::{Event, EventView};
use crate::journal::{field, fields_view, Field};
use crate::json::{
    copy_optional_json, json_bytes, optional_json_view, print_json, Json, JsonView,
};
use crate::numeral::{
    bytes_hex, decimal, decimal_text, hex_text, is_digit, lemma_decimal,
    lemma_decimal_len_u64, push_decimal,
};
use crate::runtime_key::{
    all_part_segments, key_of, law_mixed_keys_differ, lemma_chunks, lemma_join_groups, mixed_key_of,
    part_views, runtime_key, runtime_key_v3, strs_view, PartView, RuntimeKeyPart,
};
use crate::queue_starvation::{canonical, canonicalize_event};
use crate::spawner::pairs_view;
use crate::tables::ascending;
use crate::text::{copy_text, list_holds, same_text, texts_view};

verus! {

pub const MAX_DURABLE_PAYLOAD_BYTES: usize = 65_536;

// Ids of deliveries.

/// That an event was raised by the delivery of another.
pub struct DerivedDelivery {
    pub parent_delivery_id: String,
    pub ordinal: usize,
}

pub struct DerivedView {
    pub parent_delivery_id: Seq<char>,
    pub ordinal: nat,
}

impl View for DerivedDelivery {
    type V = DerivedView;

    open spec fn view(&self) -> DerivedView {
        DerivedView {
            parent_delivery_id: self.parent_delivery_id@,
            ordinal: self.ordinal as nat,
        }
    }
}

pub open spec fn derived_view(d: Option<DerivedDelivery>) -> Option<DerivedView> {
    match d {
        Some(d) => Some(d@),
        None => None,
    }
}

/// The id of a delivery, and whether deliveries with this id are one whatever they hold.
pub struct DeliveryIdentity {
    pub delivery_id: String,
    pub collapse_by_dedup_id: bool,
}

pub struct IdentityView {
    pub delivery_id: Seq<char>,
    pub collapse_by_dedup_id: bool,
}

impl View for DeliveryIdentity {
    type V = IdentityView;

    open spec fn view(&self) -> IdentityView {
        IdentityView {
            delivery_id: self.delivery_id@,
            collapse_by_dedup_id: self.collapse_by_dedup_id,
        }
    }
}

pub open spec fn source_kind_word(kind: SourceKind) -> Seq<char> {
    match kind {
        SourceKind::File => "file_watch"@,
        SourceKind::Cron => "cron"@,
        SourceKind::Git => "git"@,
        SourceKind::External => "external"@,
    }
}

/// The first half of the digest of a text, in hexadecimal digits.
pub open spec fn short_hash(s: Seq<char>) -> Seq<char> {
    bytes_hex(sha256_digest(encode_utf8(s)).take(16))
}

/// The parts of the id of a delivery that a raiser sent.
pub open spec fn source_parts(queue: Seq<char>, dept: Seq<char>, source: SourceView) -> Seq<
    Seq<char>,
> {
    seq![
        "delivery"@,
        "v1"@,
        "source"@,
        source_kind_word(source.kind),
        "queue"@,
        queue,
        "dept"@,
        dept,
        "ref"@,
        source.reference,
    ]
}

/// The parts of the id of a delivery that another raised, up to what its event says of itself.
pub open spec fn dedup_front(queue: Seq<char>, dept: Seq<char>) -> Seq<PartView> {
    seq![
        PartView::Raw("delivery"@),
        PartView::Raw("v3"@),
        PartView::Raw("raised"@),
        PartView::Raw("queue"@),
        PartView::Raw(queue),
        PartView::Raw("dept"@),
        PartView::Raw(dept),
        PartView::Raw("dedup"@),
    ]
}

pub open spec fn raised_source_front(queue: Seq<char>, dept: Seq<char>, kind: SourceKind) -> Seq<
    PartView,
> {
    seq![
        PartView::Raw("delivery"@),
        PartView::Raw("v3"@),
        PartView::Raw("raised-src"@),
        PartView::Raw("queue"@),
        PartView::Raw(queue),
        PartView::Raw("dept"@),
        PartView::Raw(dept),
        PartView::Raw("kind"@),
        PartView::Raw(source_kind_word(kind)),
        PartView::Raw("ref"@),
    ]
}

/// The parts of the id of a delivery that another raised, and that is known by that one alone.
pub open spec fn raised_parts(queue: Seq<char>, dept: Seq<char>, derived: DerivedView) -> Seq<
    Seq<char>,
> {
    seq![
        "delivery"@,
        "v2"@,
        "raised"@,
        "queue"@,
        queue,
        "dept"@,
        dept,
        "parent_hash"@,
        short_hash(derived.parent_delivery_id),
        "ordinal"@,
        decimal(derived.ordinal),
    ]
}

/// The id of a delivery. One that another raised is known by the key that its event gives, else by
/// the source that it names, else by the source of the other, else by the other itself; any other
/// is known by its source.
pub open spec fn identity_of(
    queue: Seq<char>,
    dept: Seq<char>,
    source: Option<SourceView>,
    derived: Option<DerivedView>,
    dedup_key: Option<Seq<char>>,
    raised_source: Option<SourceView>,
) -> IdentityView {
    match derived {
        Some(d) => if dedup_key matches Some(key) && key.len() > 0 {
            IdentityView {
                delivery_id: mixed_key_of(
                    dedup_front(queue, dept).push(PartView::Escaped(dedup_key->0)),
                ),
                collapse_by_dedup_id: true,
            }
        } else {
            IdentityView {
                delivery_id: match (raised_source, source) {
                    (Some(s), _) => mixed_key_of(
                        raised_source_front(queue, dept, s.kind).push(
                            PartView::Escaped(s.reference),
                        ),
                    ),
                    (None, Some(s)) => mixed_key_of(
                        raised_source_front(queue, dept, s.kind).push(
                            PartView::Escaped(s.reference),
                        ),
                    ),
                    (None, None) => key_of(raised_parts(queue, dept, d)),
                },
                collapse_by_dedup_id: false,
            }
        },
        None => IdentityView {
            delivery_id: key_of(source_parts(queue, dept, source->0)),
            collapse_by_dedup_id: false,
        },
    }
}

fn source_kind_key(kind: SourceKind) -> (r: &'static str)
    ensures
        r@ == source_kind_word(kind),
{
    match kind {
        SourceKind::File => "file_watch",
        SourceKind::Cron => "cron",
        SourceKind::Git => "git",
        SourceKind::External => "external",
    }
}

/// The first half of the digest of a text, in hexadecimal digits.
pub fn stable_hex_hash(value: &str) -> (r: String)
    requires
        encode_utf8(value@).len() + 128 <= usize::MAX,
    ensures
        r@ == short_hash(value@),
{
    let mut digest: Vec<u8> = sha256(value.as_bytes());
    digest.truncate(16);
    hex_text(digest.as_slice())
}

/// Whether a text can be digested on this machine.
pub open spec fn text_fits(s: Seq<char>) -> bool {
    encode_utf8(s).len() + 128 <= usize::MAX
}

/// The id of a delivery.
pub fn derive_delivery_identity(
    queue: &str,
    dept: &str,
    source: &Option<SourceRef>,
    derived: &Option<DerivedDelivery>,
    raised_dedup_key: Option<&str>,
    raised_source_ref: &Option<SourceRef>,
) -> (r: DeliveryIdentity)
    requires
        *derived is Some || *source is Some,
        *derived matches Some(d) ==> text_fits(d@.parent_delivery_id),
    ensures
        r@ == identity_of(
            queue@,
            dept@,
            source_view(*source),
            derived_view(*derived),
            match raised_dedup_key {
                Some(k) => Some(k@),
                None => None,
            },
            source_view(*raised_source_ref),
        ),
{
    let parent: &DerivedDelivery = match derived {
        None => {
            let kind: &str = match source {
                Some(s) => source_kind_key(s.kind),
                None => "",
            };
            let reference: &str = match source {
                Some(s) => s.reference.as_str(),
                None => "",
            };
            let parts: Vec<&str> = vec![
                "delivery",
                "v1",
                "source",
                kind,
                "queue",
                queue,
                "dept",
                dept,
                "ref",
                reference,
            ];
            assert(strs_view(parts@) =~= source_parts(queue@, dept@, source_view(*source)->0));
            return DeliveryIdentity {
                delivery_id: runtime_key(&parts),
                collapse_by_dedup_id: false,
            };
        },
        Some(d) => d,
    };
    match raised_dedup_key {
        Some(key) => {
            if !key.is_empty() {
                let parts: Vec<RuntimeKeyPart> = vec![
                    RuntimeKeyPart::Raw("delivery"),
                    RuntimeKeyPart::Raw("v3"),
                    RuntimeKeyPart::Raw("raised"),
                    RuntimeKeyPart::Raw("queue"),
                    RuntimeKeyPart::Raw(queue),
                    RuntimeKeyPart::Raw("dept"),
                    RuntimeKeyPart::Raw(dept),
                    RuntimeKeyPart::Raw("dedup"),
                    RuntimeKeyPart::Escaped(key),
                ];
                assert(part_views(parts@) =~= dedup_front(queue@, dept@).push(
                    PartView::Escaped(key@),
                ));
                return DeliveryIdentity {
                    delivery_id: runtime_key_v3(&parts),
                    collapse_by_dedup_id: true,
                };
            }
        },
        None => {},
    }
    let known: &Option<SourceRef> = match raised_source_ref {
        Some(_) => raised_source_ref,
        None => source,
    };
    match known {
        Some(s) => {
            let kind: &str = source_kind_key(s.kind);
            let parts: Vec<RuntimeKeyPart> = vec![
                RuntimeKeyPart::Raw("delivery"),
                RuntimeKeyPart::Raw("v3"),
                RuntimeKeyPart::Raw("raised-src"),
                RuntimeKeyPart::Raw("queue"),
                RuntimeKeyPart::Raw(queue),
                RuntimeKeyPart::Raw("dept"),
                RuntimeKeyPart::Raw(dept),
                RuntimeKeyPart::Raw("kind"),
                RuntimeKeyPart::Raw(kind),
                RuntimeKeyPart::Raw("ref"),
                RuntimeKeyPart::Escaped(s.reference.as_str()),
            ];
            assert(part_views(parts@) =~= raised_source_front(queue@, dept@, s@.kind).push(
                PartView::Escaped(s@.reference),
            ));
            DeliveryIdentity { delivery_id: runtime_key_v3(&parts), collapse_by_dedup_id: false }
        },
        None => {
            let hash: String = stable_hex_hash(parent.parent_delivery_id.as_str());
            let ordinal: String = decimal_text(parent.ordinal as u64);
            let parts: Vec<&str> = vec![
                "delivery",
                "v2",
                "raised",
                "queue",
                queue,
                "dept",
                dept,
                "parent_hash",
                hash.as_str(),
                "ordinal",
                ordinal.as_str(),
            ];
            assert(strs_view(parts@) =~= raised_parts(queue@, dept@, parent@));
            DeliveryIdentity { delivery_id: runtime_key(&parts), collapse_by_dedup_id: false }
        },
    }
}

/// The id of a delivery.
pub fn derive_delivery_id(
    queue: &str,
    dept: &str,
    source: &Option<SourceRef>,
    derived: &Option<DerivedDelivery>,
    raised_dedup_key: Option<&str>,
    raised_source_ref: &Option<SourceRef>,
) -> (r: String)
    requires
        *derived is Some || *source is Some,
        *derived matches Some(d) ==> text_fits(d@.parent_delivery_id),
    ensures
        r@ == identity_of(
            queue@,
            dept@,
            source_view(*source),
            derived_view(*derived),
            match raised_dedup_key {
                Some(k) => Some(k@),
                None => None,
            },
            source_view(*raised_source_ref),
        ).delivery_id,
{
    let identity: DeliveryIdentity = derive_delivery_identity(
        queue,
        dept,
        source,
        derived,
        raised_dedup_key,
        raised_source_ref,
    );
    identity.delivery_id
}

/// A delivery that another raised, and whose event gives a key, is the same delivery whichever
/// raised it, and from whatever source.
pub proof fn law_dedup_key_alone_decides(
    queue: Seq<char>,
    dept: Seq<char>,
    key: Seq<char>,
    source: Option<SourceView>,
    derived: DerivedView,
    raised_source: Option<SourceView>,
    other_source: Option<SourceView>,
    other_derived: DerivedView,
    other_raised_source: Option<SourceView>,
)
    requires
        key.len() > 0,
    ensures
        identity_of(queue, dept, source, Some(derived), Some(key), raised_source) == identity_of(
            queue,
            dept,
            other_source,
            Some(other_derived),
            Some(key),
            other_raised_source,
        ),
        identity_of(
            queue,
            dept,
            source,
            Some(derived),
            Some(key),
            raised_source,
        ).collapse_by_dedup_id,
{
}

proof fn lemma_front_segments(front: Seq<PartView>, i: int)
    requires
        0 < i <= front.len(),
        forall|k: int| 0 <= k < front.len() ==> (#[trigger] front[k]) is Raw,
    ensures
        all_part_segments(front.take(i)).len() == i,
    decreases i,
{
    assert(front.take(i).drop_last() =~= front.take(i - 1));
    assert(front.take(i).last() == front[i - 1]);
    if i > 1 {
        lemma_front_segments(front, i - 1);
    } else {
        assert(front.take(0) =~= Seq::<PartView>::empty());
        assert(all_part_segments(front.take(0)) =~= Seq::<Seq<char>>::empty());
    }
}

/// Different keys make different deliveries.
pub proof fn law_dedup_keys_differ(
    queue: Seq<char>,
    dept: Seq<char>,
    key: Seq<char>,
    other: Seq<char>,
    source: Option<SourceView>,
    derived: DerivedView,
    raised_source: Option<SourceView>,
)
    requires
        key.len() > 0,
        other.len() > 0,
        key != other,
    ensures
        identity_of(queue, dept, source, Some(derived), Some(key), raised_source).delivery_id
            != identity_of(queue, dept, source, Some(derived), Some(other), raised_source).delivery_id,
{
    let front = dedup_front(queue, dept);
    lemma_front_segments(front, front.len() as int);
    assert(front.take(front.len() as int) =~= front);
    if mixed_key_of(front.push(PartView::Escaped(key))) == mixed_key_of(
        front.push(PartView::Escaped(other)),
    ) {
        law_mixed_keys_differ(front, key, other);
    }
}

/// Different references of one kind make different deliveries where no key is given.
pub proof fn law_raised_sources_differ(
    queue: Seq<char>,
    dept: Seq<char>,
    kind: SourceKind,
    reference: Seq<char>,
    other: Seq<char>,
    derived: DerivedView,
)
    requires
        reference != other,
    ensures
        identity_of(
            queue,
            dept,
            None,
            Some(derived),
            None,
            Some(SourceView { kind, reference }),
        ).delivery_id != identity_of(
            queue,
            dept,
            None,
            Some(derived),
            None,
            Some(SourceView { kind, reference: other }),
        ).delivery_id,
{
    let front = raised_source_front(queue, dept, kind);
    lemma_front_segments(front, front.len() as int);
    assert(front.take(front.len() as int) =~= front);
    if mixed_key_of(front.push(PartView::Escaped(reference))) == mixed_key_of(
        front.push(PartView::Escaped(other)),
    ) {
        law_mixed_keys_differ(front, reference, other);
    }
}

proof fn lemma_absorbed_len(message: Seq<u8>, n: nat)
    ensures
        crate::digest::absorbed(message, n).len() == 8,
    decreases n,
{
    reveal(crate::digest::compressed);
}

proof fn lemma_bytes_hex(bytes: Seq<u8>)
    ensures
        bytes_hex(bytes).len() == 2 * bytes.len(),
        forall|i: int| 0 <= i < bytes_hex(bytes).len() ==> is_low_word(#[trigger] bytes_hex(bytes)[i]),
    decreases bytes.len(),
{
    if bytes.len() > 0 {
        lemma_bytes_hex(bytes.drop_last());
        let front = bytes_hex(bytes.drop_last());
        assert forall|i: int| 0 <= i < bytes_hex(bytes).len() implies is_low_word(
            #[trigger] bytes_hex(bytes)[i],
        ) by {
            if i < front.len() {
                assert(bytes_hex(bytes)[i] == front[i]);
            } else {
                assert(bytes_hex(bytes)[i] == crate::numeral::byte_hex(bytes.last())[i
                    - front.len()]);
            }
        }
    }
}

spec fn is_low_word(c: char) -> bool {
    ('0' <= c && c <= '9') || ('a' <= c && c <= 'z')
}

/// A text of digits and small letters stands in a key as it is.
proof fn lemma_word_part(h: Seq<char>)
    requires
        0 < h.len() <= crate::runtime_key::SEGMENT_LIMIT,
        forall|i: int| 0 <= i < h.len() ==> is_low_word(#[trigger] h[i]),
    ensures
        crate::runtime_key::key_segments(h) == seq![h],
{
    assert(vstd::utf8::is_ascii_chars(h)) by {
        assert forall|i: int| 0 <= i < h.len() implies '\0' <= #[trigger] h[i] <= '\u{7f}' by {
            assert(is_low_word(h[i]));
        }
    }
    vstd::utf8::is_ascii_chars_encode_utf8(h);
    let bytes = encode_utf8(h);
    assert forall|i: int| 0 <= i < bytes.len() implies crate::delivery_index::is_plain_byte(
        #[trigger] bytes[i],
    ) && bytes[i] != 46 by {
        assert(is_low_word(h[i]));
    }
    lemma_plain_code(bytes);
    assert(crate::delivery_index::bytes_code(bytes) =~= h);
    assert(!crate::delivery_index::only_dots(h)) by {
        assert(is_low_word(h[0]));
    }
    assert(crate::runtime_key::key_segments(h) =~= seq![h]);
}

proof fn lemma_plain_code(bytes: Seq<u8>)
    requires
        forall|i: int|
            0 <= i < bytes.len() ==> crate::delivery_index::is_plain_byte(#[trigger] bytes[i]),
    ensures
        crate::delivery_index::bytes_code(bytes) == Seq::new(
            bytes.len(),
            |i: int| bytes[i] as char,
        ),
    decreases bytes.len(),
{
    if bytes.len() > 0 {
        assert forall|i: int| 0 <= i < bytes.drop_last().len() implies
            crate::delivery_index::is_plain_byte(#[trigger] bytes.drop_last()[i]) by {
            assert(bytes.drop_last()[i] == bytes[i]);
        }
        lemma_plain_code(bytes.drop_last());
        assert(crate::delivery_index::is_plain_byte(bytes[bytes.len() - 1]));
    }
    assert(crate::delivery_index::bytes_code(bytes) =~= Seq::new(
        bytes.len(),
        |i: int| bytes[i] as char,
    ));
}

proof fn lemma_segments_concat(a: Seq<Seq<char>>, b: Seq<Seq<char>>)
    ensures
        crate::runtime_key::all_segments(a + b) == crate::runtime_key::all_segments(a)
            + crate::runtime_key::all_segments(b),
    decreases b.len(),
{
    if b.len() == 0 {
        assert(a + b =~= a);
        assert(crate::runtime_key::all_segments(b) =~= Seq::<Seq<char>>::empty());
        assert(crate::runtime_key::all_segments(a) + Seq::<Seq<char>>::empty()
            =~= crate::runtime_key::all_segments(a));
    } else {
        lemma_segments_concat(a, b.drop_last());
        assert((a + b).drop_last() =~= a + b.drop_last());
        assert((a + b).last() == b.last());
        assert(crate::runtime_key::all_segments(a + b) =~= crate::runtime_key::all_segments(a)
            + crate::runtime_key::all_segments(b));
    }
}

proof fn lemma_join_len(a: Seq<Seq<char>>, b: Seq<Seq<char>>, separator: Seq<char>)
    requires
        a.len() == b.len(),
        forall|i: int| 0 <= i < a.len() ==> (#[trigger] a[i]).len() == b[i].len(),
    ensures
        crate::cutting::join(a, separator).len() == crate::cutting::join(b, separator).len(),
    decreases a.len(),
{
    if a.len() == 1 {
        assert(a[0].len() == b[0].len());
    } else if a.len() > 1 {
        assert forall|i: int| 0 <= i < a.drop_last().len() implies (
        #[trigger] a.drop_last()[i]).len() == b.drop_last()[i].len() by {
            assert(a.drop_last()[i] == a[i]);
        }
        lemma_join_len(a.drop_last(), b.drop_last(), separator);
        assert(a[a.len() - 1].len() == b[b.len() - 1].len());
    }
}

/// The id of a delivery that is known by the one that raised it is no longer for a longer id of
/// that one: ids do not grow along a chain of deliveries.
pub proof fn law_raised_ids_do_not_grow(
    queue: Seq<char>,
    dept: Seq<char>,
    parent: Seq<char>,
    other: Seq<char>,
    ordinal: nat,
)
    ensures
        identity_of(
            queue,
            dept,
            None,
            Some(DerivedView { parent_delivery_id: parent, ordinal }),
            None,
            None,
        ).delivery_id.len() == identity_of(
            queue,
            dept,
            None,
            Some(DerivedView { parent_delivery_id: other, ordinal }),
            None,
            None,
        ).delivery_id.len(),
{
    let a = raised_parts(queue, dept, DerivedView { parent_delivery_id: parent, ordinal });
    let b = raised_parts(queue, dept, DerivedView { parent_delivery_id: other, ordinal });
    lemma_raised_segments(queue, dept, parent, ordinal);
    lemma_raised_segments(queue, dept, other, ordinal);
    let sa = crate::runtime_key::all_segments(a);
    let sb = crate::runtime_key::all_segments(b);
    let n = crate::runtime_key::all_segments(a.take(8)).len() as int;
    assert(a.take(8) =~= b.take(8));
    assert(a.skip(9) =~= b.skip(9));
    assert forall|i: int| 0 <= i < sa.len() implies (#[trigger] sa[i]).len() == sb[i].len() by {
        if i < n {
            assert(sa[i] == crate::runtime_key::all_segments(a.take(8))[i]);
            assert(sb[i] == crate::runtime_key::all_segments(b.take(8))[i]);
        } else if i > n {
            assert(sa[i] == crate::runtime_key::all_segments(a.skip(9))[i - n - 1]);
            assert(sb[i] == crate::runtime_key::all_segments(b.skip(9))[i - n - 1]);
        }
    }
    lemma_join_len(sa, sb, "/"@);
}

proof fn lemma_raised_segments(queue: Seq<char>, dept: Seq<char>, parent: Seq<char>, ordinal: nat)
    ensures
        ({
            let parts = raised_parts(
                queue,
                dept,
                DerivedView { parent_delivery_id: parent, ordinal },
            );
            crate::runtime_key::all_segments(parts) == crate::runtime_key::all_segments(
                parts.take(8),
            ) + seq![short_hash(parent)] + crate::runtime_key::all_segments(parts.skip(9))
                && short_hash(parent).len() == 32
        }),
{
    let parts = raised_parts(queue, dept, DerivedView { parent_delivery_id: parent, ordinal });
    let hash = short_hash(parent);
    let message = crate::digest::padded(encode_utf8(parent));
    lemma_absorbed_len(message, message.len() / 64);
    lemma_bytes_hex(sha256_digest(encode_utf8(parent)).take(16));
    lemma_word_part(hash);
    let front = parts.take(8);
    let middle = seq![hash];
    let back = parts.skip(9);
    assert(parts =~= front + middle + back);
    lemma_segments_concat(front + middle, back);
    lemma_segments_concat(front, middle);
    assert(middle.drop_last() =~= Seq::<Seq<char>>::empty());
    assert(crate::runtime_key::all_segments(middle.drop_last()) =~= Seq::<Seq<char>>::empty());
    assert(crate::runtime_key::all_segments(middle) =~= seq![hash]);
}

/// The characters of segments, each with one separator.
spec fn written_len(segments: Seq<Seq<char>>) -> nat
    decreases segments.len(),
{
    if segments.len() == 0 {
        0
    } else {
        written_len(segments.drop_last()) + segments.last().len() + 1
    }
}

proof fn lemma_written_concat(a: Seq<Seq<char>>, b: Seq<Seq<char>>)
    ensures
        written_len(a + b) == written_len(a) + written_len(b),
    decreases b.len(),
{
    if b.len() == 0 {
        assert(a + b =~= a);
    } else {
        lemma_written_concat(a, b.drop_last());
        assert((a + b).drop_last() =~= a + b.drop_last());
    }
}

proof fn lemma_join_written(segments: Seq<Seq<char>>)
    ensures
        crate::cutting::join(segments, "/"@).len() <= written_len(segments),
    decreases segments.len(),
{
    reveal_strlit("/");
    if segments.len() == 1 {
        assert(segments.last() == segments[0]);
    } else if segments.len() > 1 {
        lemma_join_written(segments.drop_last());
    }
}

proof fn lemma_code_len(bytes: Seq<u8>)
    ensures
        crate::delivery_index::bytes_code(bytes).len() <= 4 * bytes.len(),
    decreases bytes.len(),
{
    if bytes.len() > 0 {
        lemma_code_len(bytes.drop_last());
    }
}

/// Pieces are as long as the text that they are cut from, but for what keeps them from being dots
/// alone.
proof fn lemma_pieces_len(s: Seq<char>, pieces: Seq<Seq<char>>)
    requires
        pieces.len() == crate::runtime_key::chunks(s, crate::runtime_key::SEGMENT_LIMIT as nat).len(),
        forall|i: int|
            0 <= i < pieces.len() ==> #[trigger] pieces[i] == crate::runtime_key::dot_safe(
                crate::runtime_key::chunks(s, crate::runtime_key::SEGMENT_LIMIT as nat)[i],
            ),
    ensures
        written_len(pieces) <= s.len() + 3 + 3 * (s.len() / 200),
    decreases s.len(),
{
    let size = crate::runtime_key::SEGMENT_LIMIT as nat;
    let cut = crate::runtime_key::chunks(s, size);
    if s.len() == 0 {
    } else if s.len() <= size {
        assert(pieces.drop_last() =~= Seq::<Seq<char>>::empty());
        assert(written_len(pieces.drop_last()) == 0);
        assert(pieces.last() == crate::runtime_key::dot_safe(cut[0]));
    } else {
        let rest = s.skip(size as int);
        let more = crate::runtime_key::chunks(rest, size);
        let back = pieces.drop_first();
        assert(cut =~= seq![s.take(size as int)] + more);
        assert forall|i: int| 0 <= i < back.len() implies #[trigger] back[i]
            == crate::runtime_key::dot_safe(more[i]) by {
            assert(back[i] == pieces[i + 1]);
            assert(more[i] == cut[i + 1]);
        }
        lemma_pieces_len(rest, back);
        let front = seq![pieces[0]];
        assert(pieces =~= front + back);
        lemma_written_concat(front, back);
        assert(front.drop_last() =~= Seq::<Seq<char>>::empty());
        assert(written_len(front.drop_last()) == 0);
        assert(pieces[0] == crate::runtime_key::dot_safe(cut[0]));
        assert(rest.len() / 200 + 1 == s.len() / 200);
    }
}

proof fn lemma_part_len(part: Seq<char>)
    ensures
        written_len(crate::runtime_key::key_segments(part)) <= 5 * encode_utf8(part).len() + 6,
{
    lemma_code_len(encode_utf8(part));
    let code = crate::delivery_index::encoded_part(part);
    lemma_pieces_len(code, crate::runtime_key::key_segments(part));
    assert(code.len() <= 4 * encode_utf8(part).len() + 2);
}

proof fn lemma_word_len(word: Seq<char>)
    requires
        0 < word.len() <= crate::runtime_key::SEGMENT_LIMIT,
        forall|i: int| 0 <= i < word.len() ==> is_low_word(#[trigger] word[i]),
    ensures
        written_len(crate::runtime_key::key_segments(word)) == word.len() + 1,
{
    lemma_word_part(word);
    let one = seq![word];
    assert(one.drop_last() =~= Seq::<Seq<char>>::empty());
    assert(written_len(one.drop_last()) == 0);
    assert(one.last() == word);
}

proof fn lemma_written_parts(parts: Seq<Seq<char>>, part: Seq<char>)
    ensures
        written_len(crate::runtime_key::all_segments(parts.push(part))) == written_len(
            crate::runtime_key::all_segments(parts),
        ) + written_len(crate::runtime_key::key_segments(part)),
{
    assert(parts.push(part).drop_last() =~= parts);
    lemma_written_concat(
        crate::runtime_key::all_segments(parts),
        crate::runtime_key::key_segments(part),
    );
}

proof fn lemma_fixed_words()
    ensures
        written_len(crate::runtime_key::key_segments("delivery"@)) == 9,
        written_len(crate::runtime_key::key_segments("v2"@)) == 3,
        written_len(crate::runtime_key::key_segments("raised"@)) == 7,
        written_len(crate::runtime_key::key_segments("queue"@)) == 6,
        written_len(crate::runtime_key::key_segments("dept"@)) == 5,
        written_len(crate::runtime_key::key_segments("ordinal"@)) == 8,
        encode_utf8("parent_hash"@).len() == 11,
{
    reveal_strlit("delivery");
    reveal_strlit("v2");
    reveal_strlit("raised");
    reveal_strlit("queue");
    reveal_strlit("dept");
    reveal_strlit("ordinal");
    reveal_strlit("parent_hash");
    lemma_word_len("delivery"@);
    lemma_word_len("v2"@);
    lemma_word_len("raised"@);
    lemma_word_len("queue"@);
    lemma_word_len("dept"@);
    lemma_word_len("ordinal"@);
    assert(vstd::utf8::is_ascii_chars("parent_hash"@));
    vstd::utf8::is_ascii_chars_encode_utf8("parent_hash"@);
}

proof fn lemma_code_concat(a: Seq<u8>, b: Seq<u8>)
    ensures
        crate::delivery_index::bytes_code(a + b) == crate::delivery_index::bytes_code(a)
            + crate::delivery_index::bytes_code(b),
    decreases b.len(),
{
    if b.len() == 0 {
        assert(a + b =~= a);
        assert(crate::delivery_index::bytes_code(a) + crate::delivery_index::bytes_code(b)
            =~= crate::delivery_index::bytes_code(a));
    } else {
        lemma_code_concat(a, b.drop_last());
        assert((a + b).drop_last() =~= a + b.drop_last());
        assert(crate::delivery_index::bytes_code(a + b) =~= crate::delivery_index::bytes_code(a)
            + crate::delivery_index::bytes_code(b));
    }
}

proof fn lemma_parent_part()
    ensures
        crate::runtime_key::key_segments("parent_hash"@) == seq!["parent__hash"@],
{
    reveal_strlit("parent_hash");
    reveal_strlit("parent__hash");
    let part = "parent_hash"@;
    assert(vstd::utf8::is_ascii_chars(part));
    vstd::utf8::is_ascii_chars_encode_utf8(part);
    let bytes = encode_utf8(part);
    let front = bytes.take(6);
    let middle = seq![95u8];
    let back = bytes.skip(7);
    assert(bytes =~= front + middle + back) by {
        assert(bytes[6] == 95u8);
    }
    assert forall|i: int| 0 <= i < front.len() implies crate::delivery_index::is_plain_byte(
        #[trigger] front[i],
    ) by {
        assert(front[i] == part[i] as u8);
    }
    assert forall|i: int| 0 <= i < back.len() implies crate::delivery_index::is_plain_byte(
        #[trigger] back[i],
    ) by {
        assert(back[i] == part[i + 7] as u8);
    }
    lemma_plain_code(front);
    lemma_plain_code(back);
    lemma_code_concat(front + middle, back);
    lemma_code_concat(front, middle);
    assert(middle.drop_last() =~= Seq::<u8>::empty());
    assert(crate::delivery_index::bytes_code(middle.drop_last()) =~= Seq::<char>::empty());
    assert(crate::delivery_index::bytes_code(middle) =~= seq!['_', '_']);
    let code = crate::delivery_index::bytes_code(bytes);
    assert(code =~= "parent__hash"@);
    assert(code[0] == 'p');
    assert(crate::runtime_key::key_segments(part) =~= seq!["parent__hash"@]);
}

/// The one that raised a delivery stands in its id as its hash alone, and under its name.
pub proof fn law_a_raised_id_holds_the_hash_of_the_parent(
    queue: Seq<char>,
    dept: Seq<char>,
    parent: Seq<char>,
    ordinal: nat,
)
    ensures
        identity_of(
            queue,
            dept,
            None,
            Some(DerivedView { parent_delivery_id: parent, ordinal }),
            None,
            None,
        ).delivery_id == key_of(
            seq!["delivery"@, "v2"@, "raised"@, "queue"@, queue, "dept"@, dept],
        ) + "/parent__hash/"@ + short_hash(parent) + "/"@ + key_of(
            seq!["ordinal"@, decimal(ordinal)],
        ),
{
    let parts = raised_parts(queue, dept, DerivedView { parent_delivery_id: parent, ordinal });
    let hash = short_hash(parent);
    lemma_raised_segments(queue, dept, parent, ordinal);
    lemma_parent_part();
    let named = seq!["delivery"@, "v2"@, "raised"@, "queue"@, queue, "dept"@, dept];
    let last = seq!["ordinal"@, decimal(ordinal)];
    assert(parts.take(8) =~= named.push("parent_hash"@));
    assert(parts.skip(9) =~= last);
    assert(named.push("parent_hash"@).drop_last() =~= named);
    let front = crate::runtime_key::all_segments(named);
    let back = crate::runtime_key::all_segments(last);
    reveal_strlit("ordinal");
    reveal_strlit("delivery");
    lemma_word_part("ordinal"@);
    lemma_word_part("delivery"@);
    assert(back.len() > 0) by {
        assert(last.drop_last() =~= seq!["ordinal"@]);
        assert(seq!["ordinal"@].last() == "ordinal"@);
        assert(crate::runtime_key::all_segments(last.drop_last()).len() > 0);
    }
    assert(front.len() > 0) by {
        let first = seq!["delivery"@];
        let rest = seq!["v2"@, "raised"@, "queue"@, queue, "dept"@, dept];
        assert(named =~= first + rest);
        lemma_segments_concat(first, rest);
        assert(first.last() == "delivery"@);
        assert(crate::runtime_key::all_segments(first).len() > 0);
    }
    let middle = seq!["parent__hash"@];
    let one = seq![hash];
    assert(crate::runtime_key::all_segments(parts) =~= front + middle + one + back);
    lemma_join_groups(front + middle + one, back, "/"@);
    lemma_join_groups(front + middle, one, "/"@);
    lemma_join_groups(front, middle, "/"@);
    assert(crate::cutting::join(middle, "/"@) == "parent__hash"@);
    assert(crate::cutting::join(one, "/"@) == hash);
    reveal_strlit("/");
    reveal_strlit("parent__hash");
    reveal_strlit("/parent__hash/");
    assert("/"@ + "parent__hash"@ + "/"@ =~= "/parent__hash/"@);
    assert(key_of(parts) =~= key_of(named) + "/parent__hash/"@ + hash + "/"@ + key_of(last));
}

/// No segment of a key has a slash in it.
proof fn lemma_no_slash_in_segments(parts: Seq<Seq<char>>)
    ensures
        forall|i: int, j: int|
            0 <= i < crate::runtime_key::all_segments(parts).len() && 0 <= j
                < crate::runtime_key::all_segments(parts)[i].len()
                ==> #[trigger] crate::runtime_key::all_segments(parts)[i][j] != '/',
    decreases parts.len(),
{
    if parts.len() > 0 {
        let front = crate::runtime_key::all_segments(parts.drop_last());
        let part = parts.last();
        let back = crate::runtime_key::key_segments(part);
        let all = crate::runtime_key::all_segments(parts);
        lemma_no_slash_in_segments(parts.drop_last());
        crate::delivery_index::lemma_encoded_part(part);
        let code = crate::delivery_index::encoded_part(part);
        lemma_chunks(code, crate::runtime_key::SEGMENT_LIMIT as nat);
        let pieces = crate::runtime_key::chunks(code, crate::runtime_key::SEGMENT_LIMIT as nat);
        assert forall|i: int, j: int| 0 <= i < all.len() && 0 <= j < all[i].len() implies
            #[trigger] all[i][j] != '/' by {
            if i < front.len() {
                assert(all[i] == front[i]);
                assert(front[i][j] != '/');
            } else {
                let k = i - front.len();
                assert(all[i] == back[k]);
                let piece = pieces[k];
                assert(back[k] == crate::runtime_key::dot_safe(piece));
                if crate::delivery_index::only_dots(piece) {
                    if j >= 2 {
                        assert(back[k][j] == piece[j - 2]);
                        assert(pieces[k][j - 2] != '/');
                    }
                } else {
                    assert(pieces[k][j] != '/');
                }
            }
        }
    }
}

proof fn lemma_no_such_segment(parts: Seq<Seq<char>>, segment: Seq<char>)
    requires
        forall|i: int|
            0 <= i < parts.len() ==> !crate::runtime_key::key_segments(
                #[trigger] parts[i],
            ).contains(segment),
    ensures
        !crate::runtime_key::all_segments(parts).contains(segment),
    decreases parts.len(),
{
    if parts.len() > 0 {
        let front = parts.drop_last();
        assert forall|i: int| 0 <= i < front.len() implies !crate::runtime_key::key_segments(
            #[trigger] front[i],
        ).contains(segment) by {
            assert(front[i] == parts[i]);
        }
        lemma_no_such_segment(front, segment);
        let all = crate::runtime_key::all_segments(parts);
        let first = crate::runtime_key::all_segments(front);
        let last = crate::runtime_key::key_segments(parts[parts.len() - 1]);
        if all.contains(segment) {
            let i = choose|i: int| 0 <= i < all.len() && all[i] == segment;
            if i < first.len() {
                assert(first[i] == segment);
            } else {
                assert(last[i - first.len()] == segment);
            }
        }
    }
}

/// A word that is a segment of its own is no other word.
proof fn lemma_word_is_no_other(word: Seq<char>, other: Seq<char>)
    requires
        0 < word.len() <= crate::runtime_key::SEGMENT_LIMIT,
        forall|i: int| 0 <= i < word.len() ==> is_low_word(#[trigger] word[i]),
        word != other,
    ensures
        !crate::runtime_key::key_segments(word).contains(other),
{
    lemma_word_part(word);
    assert(seq![word][0] == word);
}

proof fn lemma_words_are_not_parent()
    ensures
        !crate::runtime_key::key_segments("delivery"@).contains("parent"@),
        !crate::runtime_key::key_segments("v2"@).contains("parent"@),
        !crate::runtime_key::key_segments("raised"@).contains("parent"@),
        !crate::runtime_key::key_segments("queue"@).contains("parent"@),
        !crate::runtime_key::key_segments("dept"@).contains("parent"@),
        !crate::runtime_key::key_segments("ordinal"@).contains("parent"@),
        !crate::runtime_key::key_segments("parent_hash"@).contains("parent"@),
{
    reveal_strlit("parent");
    reveal_strlit("delivery");
    reveal_strlit("v2");
    reveal_strlit("raised");
    reveal_strlit("queue");
    reveal_strlit("dept");
    reveal_strlit("ordinal");
    reveal_strlit("parent__hash");
    let named = "parent"@;
    assert(named.len() == 6 && named[0] == 'p');
    assert("raised"@[0] == 'r');
    lemma_word_is_no_other("delivery"@, named);
    lemma_word_is_no_other("v2"@, named);
    lemma_word_is_no_other("raised"@, named);
    lemma_word_is_no_other("queue"@, named);
    lemma_word_is_no_other("dept"@, named);
    lemma_word_is_no_other("ordinal"@, named);
    lemma_parent_part();
    assert(seq!["parent__hash"@][0].len() == 12);
}

proof fn lemma_hash_and_number_are_not_parent(parent: Seq<char>, ordinal: nat)
    requires
        ordinal <= u64::MAX,
    ensures
        !crate::runtime_key::key_segments(short_hash(parent)).contains("parent"@),
        !crate::runtime_key::key_segments(decimal(ordinal)).contains("parent"@),
{
    let hash = short_hash(parent);
    let message = crate::digest::padded(encode_utf8(parent));
    lemma_absorbed_len(message, message.len() / 64);
    lemma_bytes_hex(sha256_digest(encode_utf8(parent)).take(16));
    let digits = decimal(ordinal);
    lemma_decimal(ordinal);
    lemma_decimal_len_u64(ordinal as u64);
    assert forall|i: int| 0 <= i < digits.len() implies is_low_word(#[trigger] digits[i]) by {
        assert(is_digit(digits[i]));
    }
    reveal_strlit("parent");
    assert("parent"@.len() == 6 && "parent"@[0] == 'p');
    assert(digits != "parent"@) by {
        assert(is_digit(digits[0]));
    }
    assert(hash.len() == 32);
    lemma_word_is_no_other(hash, "parent"@);
    lemma_word_is_no_other(digits, "parent"@);
}

proof fn lemma_no_parent_among(
    queue: Seq<char>,
    dept: Seq<char>,
    parent: Seq<char>,
    ordinal: nat,
)
    requires
        ordinal <= u64::MAX,
        !crate::runtime_key::key_segments(queue).contains("parent"@),
        !crate::runtime_key::key_segments(dept).contains("parent"@),
    ensures
        !crate::runtime_key::all_segments(
            raised_parts(queue, dept, DerivedView { parent_delivery_id: parent, ordinal }),
        ).contains("parent"@),
{
    let parts = raised_parts(queue, dept, DerivedView { parent_delivery_id: parent, ordinal });
    lemma_words_are_not_parent();
    lemma_hash_and_number_are_not_parent(parent, ordinal);
    lemma_no_such_segment(parts, "parent"@);
}

/// No segment of the id of a delivery that is known by the one that raised it is named `parent`,
/// unless one of the queue or of the department is: the other stands there as a hash alone.
pub proof fn law_a_raised_id_has_no_segment_named_parent(
    queue: Seq<char>,
    dept: Seq<char>,
    parent: Seq<char>,
    ordinal: nat,
)
    requires
        ordinal <= u64::MAX,
        !crate::runtime_key::key_segments(queue).contains("parent"@),
        !crate::runtime_key::key_segments(dept).contains("parent"@),
    ensures
        ({
            let id = identity_of(
                queue,
                dept,
                None,
                Some(DerivedView { parent_delivery_id: parent, ordinal }),
                None,
                None,
            ).delivery_id;
            &&& !split(id, '/').contains("parent"@)
            &&& forall|i: int|
                0 <= i <= id.len() - 8 ==> #[trigger] id.subrange(i, i + 8) != "/parent/"@
        }),
{
    let parts = raised_parts(queue, dept, DerivedView { parent_delivery_id: parent, ordinal });
    let named = "parent"@;
    reveal_strlit("parent");
    lemma_no_parent_among(queue, dept, parent, ordinal);
    lemma_no_slash_in_segments(parts);
    let segments = crate::runtime_key::all_segments(parts);
    reveal_strlit("/");
    assert("/"@ =~= seq!['/']);
    assert(segments.len() >= 1) by {
        lemma_raised_segments(queue, dept, parent, ordinal);
    }
    law_split_join(segments, '/');
    let id = key_of(parts);
    assert forall|i: int| 0 <= i <= id.len() - 8 implies #[trigger] id.subrange(i, i + 8)
        != "/parent/"@ by {
        reveal_strlit("/parent/");
        if id.subrange(i, i + 8) == "/parent/"@ {
            let a = id.take(i);
            let b = id.skip(i + 8);
            assert(id =~= a + id.subrange(i, i + 8) + b);
            assert("/parent/"@ =~= seq!['/'] + named + seq!['/']);
            assert(id =~= a + seq!['/'] + named + seq!['/'] + b);
            lemma_split_between(a, named, b, '/');
        }
    }
}

/// The id of a delivery that is known by the one that raised it has a bound that only the names
/// of its queue and of its department move, however long the chain that it stands in.
pub proof fn law_raised_ids_are_bounded(
    queue: Seq<char>,
    dept: Seq<char>,
    parent: Seq<char>,
    ordinal: nat,
)
    requires
        ordinal <= u64::MAX,
    ensures
        identity_of(
            queue,
            dept,
            None,
            Some(DerivedView { parent_delivery_id: parent, ordinal }),
            None,
            None,
        ).delivery_id.len() <= 165 + 5 * encode_utf8(queue).len() + 5 * encode_utf8(dept).len(),
{
    let parts = raised_parts(queue, dept, DerivedView { parent_delivery_id: parent, ordinal });
    let hash = short_hash(parent);
    let message = crate::digest::padded(encode_utf8(parent));
    lemma_absorbed_len(message, message.len() / 64);
    lemma_bytes_hex(sha256_digest(encode_utf8(parent)).take(16));
    lemma_word_len(hash);
    let digits = decimal(ordinal);
    lemma_decimal(ordinal);
    lemma_decimal_len_u64(ordinal as u64);
    assert forall|i: int| 0 <= i < digits.len() implies is_low_word(#[trigger] digits[i]) by {
        assert(is_digit(digits[i]));
    }
    lemma_word_len(digits);
    lemma_fixed_words();
    lemma_part_len(queue);
    lemma_part_len(dept);
    lemma_part_len("parent_hash"@);
    let p0 = Seq::<Seq<char>>::empty();
    let p1 = p0.push("delivery"@);
    let p2 = p1.push("v2"@);
    let p3 = p2.push("raised"@);
    let p4 = p3.push("queue"@);
    let p5 = p4.push(queue);
    let p6 = p5.push("dept"@);
    let p7 = p6.push(dept);
    let p8 = p7.push("parent_hash"@);
    let p9 = p8.push(hash);
    let p10 = p9.push("ordinal"@);
    lemma_written_parts(p0, "delivery"@);
    lemma_written_parts(p1, "v2"@);
    lemma_written_parts(p2, "raised"@);
    lemma_written_parts(p3, "queue"@);
    lemma_written_parts(p4, queue);
    lemma_written_parts(p5, "dept"@);
    lemma_written_parts(p6, dept);
    lemma_written_parts(p7, "parent_hash"@);
    lemma_written_parts(p8, hash);
    lemma_written_parts(p9, "ordinal"@);
    lemma_written_parts(p10, digits);
    assert(crate::runtime_key::all_segments(p0) =~= Seq::<Seq<char>>::empty());
    assert(written_len(crate::runtime_key::all_segments(p0)) == 0);
    assert(parts =~= p10.push(digits));
    lemma_join_written(crate::runtime_key::all_segments(parts));
}

// What an event says of itself.

pub open spec fn kind_of_word(word: Seq<char>) -> Option<SourceKind> {
    if word == "file"@ || word == "file_watch"@ {
        Some(SourceKind::File)
    } else if word == "cron"@ {
        Some(SourceKind::Cron)
    } else if word == "git"@ {
        Some(SourceKind::Git)
    } else if word == "external"@ {
        Some(SourceKind::External)
    } else {
        None
    }
}

/// The source that a payload names: a kind that is known, and a reference that is not empty.
pub open spec fn named_source(payload: JsonView) -> Option<SourceView> {
    match payload.get("source_ref"@) {
        None => None,
        Some(s) => match (s.text_at("kind"@), s.text_at("reference"@)) {
            (Some(word), Some(reference)) => match kind_of_word(word) {
                Some(kind) => if reference.len() > 0 {
                    Some(SourceView { kind, reference })
                } else {
                    None
                },
                None => None,
            },
            _ => None,
        },
    }
}

fn payload_source_kind(kind: &str) -> (r: Option<SourceKind>)
    ensures
        r == kind_of_word(kind@),
{
    if same_text(kind, "file") || same_text(kind, "file_watch") {
        Some(SourceKind::File)
    } else if same_text(kind, "cron") {
        Some(SourceKind::Cron)
    } else if same_text(kind, "git") {
        Some(SourceKind::Git)
    } else if same_text(kind, "external") {
        Some(SourceKind::External)
    } else {
        None
    }
}

/// The source that a payload names.
pub fn payload_source_ref(payload: &Json) -> (r: Option<SourceRef>)
    ensures
        source_view(r) == named_source(payload@),
{
    match payload.get("source_ref") {
        None => None,
        Some(s) => match (s.text_at("kind"), s.text_at("reference")) {
            (Some(word), Some(reference)) => match payload_source_kind(word.as_str()) {
                Some(kind) => if !reference.as_str().is_empty() {
                    Some(SourceRef { kind, reference })
                } else {
                    None
                },
                None => None,
            },
            _ => None,
        },
    }
}

/// The key that a payload gives.
pub open spec fn given_key(payload: JsonView) -> Option<Seq<char>> {
    match payload.text_at("dedup_key"@) {
        Some(key) => if key.len() > 0 {
            Some(key)
        } else {
            None
        },
        None => None,
    }
}

// Subscriptions.

/// A department that takes from a queue, and whether what it takes is kept until it is done.
pub struct Subscription {
    pub dept: String,
    pub reliable: bool,
}

pub struct SubscriptionView {
    pub dept: Seq<char>,
    pub reliable: bool,
}

impl View for Subscription {
    type V = SubscriptionView;

    open spec fn view(&self) -> SubscriptionView {
        SubscriptionView { dept: self.dept@, reliable: self.reliable }
    }
}

pub open spec fn subscription_views(v: Seq<Subscription>) -> Seq<SubscriptionView> {
    Seq::new(v.len(), |i: int| v[i]@)
}

/// The subscriptions of one department to a queue, one for every time that it names the queue.
pub open spec fn dept_subscriptions(
    consumes: Seq<Seq<char>>,
    dept: Seq<char>,
    ephemeral: Seq<Seq<char>>,
    queue: Seq<char>,
) -> Seq<SubscriptionView>
    decreases consumes.len(),
{
    if consumes.len() == 0 {
        Seq::empty()
    } else {
        let front = dept_subscriptions(consumes.drop_last(), dept, ephemeral, queue);
        if consumes.last() == queue {
            front.push(SubscriptionView { dept, reliable: !ephemeral.contains(queue) })
        } else {
            front
        }
    }
}

/// The subscriptions to a queue, department by department.
pub open spec fn subscriptions_of(ds: Seq<DepartmentDecl>, queue: Seq<char>) -> Seq<
    SubscriptionView,
>
    decreases ds.len(),
{
    if ds.len() == 0 {
        Seq::empty()
    } else {
        let d = ds.last();
        subscriptions_of(ds.drop_last(), queue) + dept_subscriptions(
            texts_view(d.consumes@),
            d.name@,
            texts_view(d.ephemeral@),
            queue,
        )
    }
}

/// Whether any department takes from a queue.
pub open spec fn is_consumed(ds: Seq<DepartmentDecl>, queue: Seq<char>) -> bool {
    exists|i: int| 0 <= i < ds.len() && texts_view((#[trigger] ds[i]).consumes@).contains(queue)
}

/// The subscriptions to one queue.
pub struct Route {
    pub queue: String,
    pub subscriptions: Vec<Subscription>,
}

pub open spec fn route_names(routes: Seq<Route>) -> Seq<Seq<char>> {
    Seq::new(routes.len(), |i: int| routes[i].queue@)
}

/// The routes of departments: one for every queue that any takes from, in the order of their
/// names, with all subscriptions.
pub open spec fn routes_of(routes: Seq<Route>, ds: Seq<DepartmentDecl>) -> bool {
    &&& ascending(route_names(routes))
    &&& forall|queue: Seq<char>| #[trigger]
        route_names(routes).contains(queue) <==> is_consumed(ds, queue)
    &&& forall|i: int|
        0 <= i < routes.len() ==> subscription_views((#[trigger] routes[i]).subscriptions@)
            == subscriptions_of(ds, routes[i].queue@)
}

fn queue_subscriptions(ds: &Vec<DepartmentDecl>, queue: &str) -> (r: Vec<Subscription>)
    ensures
        subscription_views(r@) == subscriptions_of(ds@, queue@),
{
    let mut out: Vec<Subscription> = Vec::new();
    let mut i: usize = 0;
    assert(subscription_views(out@) =~= Seq::<SubscriptionView>::empty());
    while i < ds.len()
        invariant
            i <= ds@.len(),
            subscription_views(out@) == subscriptions_of(ds@.take(i as int), queue@),
        decreases ds@.len() - i,
    {
        let d: &DepartmentDecl = &ds[i];
        let ghost before = subscription_views(out@);
        let ghost consumes = texts_view(d.consumes@);
        let ghost ephemeral = texts_view(d.ephemeral@);
        let reliable: bool = !list_holds(&d.ephemeral, queue);
        let mut k: usize = 0;
        assert(before + dept_subscriptions(consumes.take(0), d.name@, ephemeral, queue@) =~= before);
        while k < d.consumes.len()
            invariant
                consumes == texts_view(d.consumes@),
                ephemeral == texts_view(d.ephemeral@),
                reliable == !ephemeral.contains(queue@),
                k <= d.consumes@.len(),
                subscription_views(out@) == before + dept_subscriptions(
                    consumes.take(k as int),
                    d.name@,
                    ephemeral,
                    queue@,
                ),
            decreases d.consumes@.len() - k,
        {
            let ghost had = subscription_views(out@);
            proof {
                assert(consumes.take(k + 1).drop_last() =~= consumes.take(k as int));
                assert(consumes.take(k + 1).last() == d.consumes@[k as int]@);
            }
            if same_text(d.consumes[k].as_str(), queue) {
                out.push(Subscription { dept: copy_text(d.name.as_str()), reliable });
                proof {
                    let new = SubscriptionView { dept: d.name@, reliable };
                    assert(subscription_views(out@) =~= had.push(new));
                    assert(had.push(new) =~= before + dept_subscriptions(
                        consumes.take(k + 1),
                        d.name@,
                        ephemeral,
                        queue@,
                    ));
                }
            }
            k = k + 1;
        }
        proof {
            assert(consumes.take(consumes.len() as int) =~= consumes);
            assert(ds@.take(i + 1).drop_last() =~= ds@.take(i as int));
            assert(ds@.take(i + 1).last() == ds@[i as int]);
        }
        i = i + 1;
    }
    assert(ds@.take(ds@.len() as int) =~= ds@);
    out
}

fn consumed_queues(ds: &Vec<DepartmentDecl>) -> (r: Vec<String>)
    ensures
        ascending(texts_view(r@)),
        forall|queue: Seq<char>| #[trigger]
            texts_view(r@).contains(queue) <==> is_consumed(ds@, queue),
{
    let mut out: Vec<String> = Vec::new();
    let mut i: usize = 0;
    assert(texts_view(out@) =~= Seq::<Seq<char>>::empty());
    while i < ds.len()
        invariant
            i <= ds@.len(),
            ascending(texts_view(out@)),
            forall|queue: Seq<char>| #[trigger]
                texts_view(out@).contains(queue) <==> is_consumed(ds@.take(i as int), queue),
        decreases ds@.len() - i,
    {
        let d: &DepartmentDecl = &ds[i];
        let ghost front = ds@.take(i as int);
        let ghost consumes = texts_view(d.consumes@);
        let mut k: usize = 0;
        while k < d.consumes.len()
            invariant
                consumes == texts_view(d.consumes@),
                k <= d.consumes@.len(),
                ascending(texts_view(out@)),
                forall|queue: Seq<char>| #[trigger]
                    texts_view(out@).contains(queue) <==> is_consumed(front, queue)
                        || consumes.take(k as int).contains(queue),
            decreases d.consumes@.len() - k,
        {
            let ghost had = texts_view(out@);
            insert_name(&mut out, d.consumes[k].as_str());
            proof {
                let name = d.consumes@[k as int]@;
                assert forall|queue: Seq<char>| #[trigger]
                    texts_view(out@).contains(queue) <==> is_consumed(front, queue)
                        || consumes.take(k + 1).contains(queue) by {
                    assert(consumes.take(k + 1) =~= consumes.take(k as int).push(name));
                    assert(had.contains(queue) <==> is_consumed(front, queue) || consumes.take(
                        k as int,
                    ).contains(queue));
                    let now = consumes.take(k as int).push(name);
                    if consumes.take(k as int).contains(queue) {
                        let j = choose|j: int|
                            0 <= j < consumes.take(k as int).len() && consumes.take(k as int)[j]
                                == queue;
                        assert(now[j] == queue);
                    }
                    if queue == name {
                        assert(now[k as int] == queue);
                    }
                    if now.contains(queue) && queue != name {
                        let j = choose|j: int| 0 <= j < now.len() && now[j] == queue;
                        assert(consumes.take(k as int)[j] == queue);
                    }
                }
            }
            k = k + 1;
        }
        proof {
            assert(consumes.take(consumes.len() as int) =~= consumes);
            let more = ds@.take(i + 1);
            assert forall|queue: Seq<char>| #[trigger]
                texts_view(out@).contains(queue) <==> is_consumed(more, queue) by {
                if is_consumed(front, queue) {
                    let j = choose|j: int|
                        0 <= j < front.len() && texts_view((#[trigger] front[j]).consumes@).contains(
                            queue,
                        );
                    assert(more[j] == front[j]);
                }
                if consumes.contains(queue) {
                    assert(more[i as int] == ds@[i as int]);
                }
                if is_consumed(more, queue) {
                    let j = choose|j: int|
                        0 <= j < more.len() && texts_view((#[trigger] more[j]).consumes@).contains(
                            queue,
                        );
                    if j < i {
                        assert(front[j] == more[j]);
                    }
                }
            }
        }
        i = i + 1;
    }
    assert(ds@.take(ds@.len() as int) =~= ds@);
    out
}

/// Knows who takes from which queue.
pub struct DeliveryRouter {
    pub routes: Vec<Route>,
}

impl DeliveryRouter {
    /// Departments are given in the order of their names.
    pub fn new(ds: &Vec<DepartmentDecl>) -> (r: DeliveryRouter)
        requires
            ascending(department_names(ds@)),
        ensures
            routes_of(r.routes@, ds@),
    {
        let queues: Vec<String> = consumed_queues(ds);
        let ghost names = texts_view(queues@);
        let mut routes: Vec<Route> = Vec::new();
        let mut i: usize = 0;
        while i < queues.len()
            invariant
                names == texts_view(queues@),
                i <= queues@.len(),
                routes@.len() == i,
                forall|k: int|
                    0 <= k < i ==> (#[trigger] routes@[k]).queue@ == names[k]
                        && subscription_views(routes@[k].subscriptions@) == subscriptions_of(
                        ds@,
                        names[k],
                    ),
            decreases queues@.len() - i,
        {
            let subscriptions: Vec<Subscription> = queue_subscriptions(ds, queues[i].as_str());
            routes.push(Route { queue: copy_text(queues[i].as_str()), subscriptions });
            i = i + 1;
        }
        assert(route_names(routes@) =~= names);
        DeliveryRouter { routes }
    }

    /// The subscriptions to a queue, where any department takes from it.
    pub open spec fn at(self, queue: Seq<char>) -> Option<Seq<SubscriptionView>> {
        route_at(self.routes@, queue)
    }

    /// The subscriptions to a queue, where any department takes from it.
    pub fn subscribers(&self, queue: &str) -> (r: Option<&Vec<Subscription>>)
        ensures
            (match r {
                Some(v) => Some(subscription_views(v@)),
                None => None,
            }) == self.at(queue@),
    {
        let mut i: usize = 0;
        assert(self.routes@.skip(0) =~= self.routes@);
        while i < self.routes.len()
            invariant
                i <= self.routes@.len(),
                self.at(queue@) == route_at(self.routes@.skip(i as int), queue@),
            decreases self.routes@.len() - i,
        {
            proof {
                assert(self.routes@.skip(i as int)[0] == self.routes@[i as int]);
                assert(self.routes@.skip(i as int).drop_first() =~= self.routes@.skip(i + 1));
            }
            if same_text(self.routes[i].queue.as_str(), queue) {
                return Some(&self.routes[i].subscriptions);
            }
            i = i + 1;
        }
        None
    }

    /// The queues that any department takes from.
    pub fn current_subscriber_queues(&self) -> (r: Vec<String>)
        ensures
            texts_view(r@) == route_names(self.routes@),
    {
        let mut out: Vec<String> = Vec::new();
        let mut i: usize = 0;
        while i < self.routes.len()
            invariant
                i <= self.routes@.len(),
                out@.len() == i,
                forall|k: int| 0 <= k < i ==> (#[trigger] out@[k])@ == self.routes@[k].queue@,
            decreases self.routes@.len() - i,
        {
            out.push(copy_text(self.routes[i].queue.as_str()));
            i = i + 1;
        }
        assert(texts_view(out@) =~= route_names(self.routes@));
        out
    }

    /// The queues that any department takes from reliably.
    pub fn reliable_subscriber_queues(&self) -> (r: Vec<String>)
        ensures
            texts_view(r@) == reliable_names(self.routes@),
    {
        let mut out: Vec<String> = Vec::new();
        let mut i: usize = 0;
        assert(texts_view(out@) =~= Seq::<Seq<char>>::empty());
        while i < self.routes.len()
            invariant
                i <= self.routes@.len(),
                texts_view(out@) == reliable_names(self.routes@.take(i as int)),
            decreases self.routes@.len() - i,
        {
            let ghost had = texts_view(out@);
            let route: &Route = &self.routes[i];
            assert(self.routes@.take(i + 1).drop_last() =~= self.routes@.take(i as int));
            let (count, _): (usize, usize) = count_reliable(&route.subscriptions);
            if count > 0 {
                out.push(copy_text(route.queue.as_str()));
                assert(texts_view(out@) =~= had.push(route.queue@));
            }
            i = i + 1;
        }
        assert(self.routes@.take(self.routes@.len() as int) =~= self.routes@);
        out
    }

    /// The queues that exactly one department takes from reliably, each with that department.
    pub fn single_reliable_subscribers_by_queue(&self) -> (r: Vec<(String, String)>)
        ensures
            pairs_view(r@) == single_reliable(self.routes@),
    {
        let mut out: Vec<(String, String)> = Vec::new();
        let mut i: usize = 0;
        assert(pairs_view(out@) =~= Seq::<(Seq<char>, Seq<char>)>::empty());
        while i < self.routes.len()
            invariant
                i <= self.routes@.len(),
                pairs_view(out@) == single_reliable(self.routes@.take(i as int)),
            decreases self.routes@.len() - i,
        {
            let ghost had = pairs_view(out@);
            let route: &Route = &self.routes[i];
            assert(self.routes@.take(i + 1).drop_last() =~= self.routes@.take(i as int));
            let (count, last): (usize, usize) = count_reliable(&route.subscriptions);
            if count == 1 {
                let dept: &str = route.subscriptions[last].dept.as_str();
                out.push((copy_text(route.queue.as_str()), copy_text(dept)));
                assert(pairs_view(out@) =~= had.push((route.queue@, dept@)));
            }
            i = i + 1;
        }
        assert(self.routes@.take(self.routes@.len() as int) =~= self.routes@);
        out
    }
}

pub open spec fn route_at(routes: Seq<Route>, queue: Seq<char>) -> Option<Seq<SubscriptionView>>
    decreases routes.len(),
{
    if routes.len() == 0 {
        None
    } else if routes[0].queue@ == queue {
        Some(subscription_views(routes[0].subscriptions@))
    } else {
        route_at(routes.drop_first(), queue)
    }
}

proof fn lemma_route_at(routes: Seq<Route>, ds: Seq<DepartmentDecl>, queue: Seq<char>)
    requires
        forall|i: int|
            0 <= i < routes.len() ==> subscription_views((#[trigger] routes[i]).subscriptions@)
                == subscriptions_of(ds, routes[i].queue@),
    ensures
        route_at(routes, queue) == if route_names(routes).contains(queue) {
            Some(subscriptions_of(ds, queue))
        } else {
            None
        },
    decreases routes.len(),
{
    let names = route_names(routes);
    if routes.len() > 0 {
        let rest = routes.drop_first();
        assert forall|i: int| 0 <= i < rest.len() implies subscription_views(
            (#[trigger] rest[i]).subscriptions@,
        ) == subscriptions_of(ds, rest[i].queue@) by {
            assert(rest[i] == routes[i + 1]);
        }
        lemma_route_at(rest, ds, queue);
        assert(names[0] == routes[0].queue@);
        if routes[0].queue@ != queue {
            assert(route_names(rest) =~= names.drop_first());
            if names.contains(queue) {
                let i = choose|i: int| 0 <= i < names.len() && names[i] == queue;
                assert(names.drop_first()[i - 1] == queue);
            }
            if names.drop_first().contains(queue) {
                let i = choose|i: int|
                    0 <= i < names.drop_first().len() && names.drop_first()[i] == queue;
                assert(names[i + 1] == queue);
            }
        }
    }
}

proof fn lemma_no_subscription(
    consumes: Seq<Seq<char>>,
    dept: Seq<char>,
    ephemeral: Seq<Seq<char>>,
    queue: Seq<char>,
)
    requires
        !consumes.contains(queue),
    ensures
        dept_subscriptions(consumes, dept, ephemeral, queue) == Seq::<SubscriptionView>::empty(),
    decreases consumes.len(),
{
    if consumes.len() > 0 {
        assert(consumes[consumes.len() - 1] != queue);
        assert forall|i: int| 0 <= i < consumes.drop_last().len() implies consumes.drop_last()[i]
            != queue by {
            assert(consumes[i] != queue);
        }
        lemma_no_subscription(consumes.drop_last(), dept, ephemeral, queue);
    }
}

proof fn lemma_not_consumed(ds: Seq<DepartmentDecl>, queue: Seq<char>)
    requires
        !is_consumed(ds, queue),
    ensures
        subscriptions_of(ds, queue) == Seq::<SubscriptionView>::empty(),
    decreases ds.len(),
{
    if ds.len() > 0 {
        let d = ds.last();
        assert(ds[ds.len() - 1] == d);
        lemma_no_subscription(texts_view(d.consumes@), d.name@, texts_view(d.ephemeral@), queue);
        assert forall|i: int| 0 <= i < ds.drop_last().len() implies !texts_view(
            (#[trigger] ds.drop_last()[i]).consumes@,
        ).contains(queue) by {
            assert(ds[i] == ds.drop_last()[i]);
        }
        lemma_not_consumed(ds.drop_last(), queue);
        assert(subscriptions_of(ds, queue) =~= Seq::<SubscriptionView>::empty());
    }
}

/// A router knows for each queue just the subscriptions of the departments to it.
pub proof fn law_routes_are_the_subscriptions(
    routes: Seq<Route>,
    ds: Seq<DepartmentDecl>,
    queue: Seq<char>,
)
    requires
        routes_of(routes, ds),
    ensures
        is_consumed(ds, queue) ==> route_at(routes, queue) == Some(subscriptions_of(ds, queue)),
        !is_consumed(ds, queue) ==> route_at(routes, queue) is None && subscriptions_of(ds, queue)
            == Seq::<SubscriptionView>::empty(),
{
    lemma_route_at(routes, ds, queue);
    assert(route_names(routes).contains(queue) <==> is_consumed(ds, queue));
    if !is_consumed(ds, queue) {
        lemma_not_consumed(ds, queue);
    }
}

/// The departments of the reliable subscriptions.
pub open spec fn reliable_depts(s: Seq<SubscriptionView>) -> Seq<Seq<char>>
    decreases s.len(),
{
    if s.len() == 0 {
        Seq::empty()
    } else if s.last().reliable {
        reliable_depts(s.drop_last()).push(s.last().dept)
    } else {
        reliable_depts(s.drop_last())
    }
}

pub open spec fn reliable_names(routes: Seq<Route>) -> Seq<Seq<char>>
    decreases routes.len(),
{
    if routes.len() == 0 {
        Seq::empty()
    } else {
        let front = reliable_names(routes.drop_last());
        if reliable_depts(subscription_views(routes.last().subscriptions@)).len() > 0 {
            front.push(routes.last().queue@)
        } else {
            front
        }
    }
}

pub open spec fn single_reliable(routes: Seq<Route>) -> Seq<(Seq<char>, Seq<char>)>
    decreases routes.len(),
{
    if routes.len() == 0 {
        Seq::empty()
    } else {
        let front = single_reliable(routes.drop_last());
        let depts = reliable_depts(subscription_views(routes.last().subscriptions@));
        if depts.len() == 1 {
            front.push((routes.last().queue@, depts[0]))
        } else {
            front
        }
    }
}

/// How many subscriptions are reliable, and where the last of them stands.
fn count_reliable(s: &Vec<Subscription>) -> (r: (usize, usize))
    ensures
        r.0 == reliable_depts(subscription_views(s@)).len(),
        r.0 > 0 ==> r.1 < s@.len() && reliable_depts(subscription_views(s@)).last() == s@[r.1
            as int]@.dept,
{
    let ghost views = subscription_views(s@);
    let len: usize = s.len();
    let mut count: usize = 0;
    let mut last: usize = 0;
    let mut i: usize = 0;
    while i < len
        invariant
            len == s@.len(),
            views == subscription_views(s@),
            i <= len,
            count <= i,
            count == reliable_depts(views.take(i as int)).len(),
            count > 0 ==> last < s@.len() && reliable_depts(views.take(i as int)).last()
                == s@[last as int]@.dept,
        decreases len - i,
    {
        proof {
            assert(views.take(i + 1).drop_last() =~= views.take(i as int));
            assert(views.take(i + 1).last() == s@[i as int]@);
        }
        if s[i].reliable {
            count = count + 1;
            last = i;
        }
        i = i + 1;
    }
    assert(views.take(len as int) =~= views);
    (count, last)
}

/// Whether any department takes from any queue reliably.
pub open spec fn any_reliable(ds: Seq<DepartmentDecl>) -> bool {
    exists|i: int, k: int|
        0 <= i < ds.len() && 0 <= k < ds[i].consumes@.len() && !texts_view(
            ds[i].ephemeral@,
        ).contains(#[trigger] texts_view((#[trigger] ds[i]).consumes@)[k])
}

pub fn has_reliable_subscriptions(ds: &Vec<DepartmentDecl>) -> (r: bool)
    ensures
        r == any_reliable(ds@),
{
    let mut i: usize = 0;
    while i < ds.len()
        invariant
            i <= ds@.len(),
            forall|a: int, b: int|
                0 <= a < i && 0 <= b < ds@[a].consumes@.len() ==> texts_view(
                    ds@[a].ephemeral@,
                ).contains(#[trigger] texts_view((#[trigger] ds@[a]).consumes@)[b]),
        decreases ds@.len() - i,
    {
        let d: &DepartmentDecl = &ds[i];
        let mut k: usize = 0;
        while k < d.consumes.len()
            invariant
                i < ds@.len(),
                d == ds@[i as int],
                k <= d.consumes@.len(),
                forall|b: int|
                    0 <= b < k ==> texts_view(d.ephemeral@).contains(
                        #[trigger] texts_view(d.consumes@)[b],
                    ),
            decreases d.consumes@.len() - k,
        {
            if !list_holds(&d.ephemeral, d.consumes[k].as_str()) {
                assert(!texts_view(ds@[i as int].ephemeral@).contains(
                    texts_view(ds@[i as int].consumes@)[k as int],
                ));
                return true;
            }
            k = k + 1;
        }
        i = i + 1;
    }
    false
}

// Publishing.

/// An event on its way to those who take it.
pub struct PublishEnvelope {
    pub event: Event,
    pub source: Option<SourceRef>,
    pub cron_payload: Option<Json>,
    pub derived: Option<DerivedDelivery>,
}

/// Why an event is not published.
#[derive(Debug)]
pub enum PublishError {
    /// No department takes from the queue.
    NoSubscriptions { queue: String },
    /// A reliable delivery without a source.
    MissingSource { queue: String, dept: String },
    /// A reliable delivery without a store.
    StoreNotOpen,
    /// A payload of this many bytes, which is too many.
    OversizedPayload { bytes: usize },
    /// Something else than a failure fact.
    NotAFailureFact,
}

/// What is said of an error.
pub open spec fn publish_error_text(e: PublishError) -> Seq<char> {
    match e {
        PublishError::NoSubscriptions { queue } => "queue `"@ + queue@
            + "` has no delivery subscriptions"@,
        PublishError::MissingSource { queue, dept } => "reliable delivery to queue `"@ + queue@
            + "` for dept `"@ + dept@ + "` requires source_ref"@,
        PublishError::StoreNotOpen => "reliable delivery store is not open"@,
        PublishError::OversizedPayload { bytes } => "durable delivery payload exceeds 65536 bytes: "@
            + decimal(bytes as nat),
        PublishError::NotAFailureFact => "failure fact queue must be `fkst.failure_fact`"@,
    }
}

impl PublishError {
    pub fn message(&self) -> (r: String)
        ensures
            r@ == publish_error_text(*self),
    {
        match self {
            PublishError::NoSubscriptions { queue } => {
                let mut out: String = copy_text("queue `");
                out.append(queue.as_str());
                out.append("` has no delivery subscriptions");
                out
            },
            PublishError::MissingSource { queue, dept } => {
                let mut out: String = copy_text("reliable delivery to queue `");
                out.append(queue.as_str());
                out.append("` for dept `");
                out.append(dept.as_str());
                out.append("` requires source_ref");
                out
            },
            PublishError::StoreNotOpen => copy_text("reliable delivery store is not open"),
            PublishError::OversizedPayload { bytes } => {
                let mut out: String = copy_text("durable delivery payload exceeds 65536 bytes: ");
                push_decimal(&mut out, *bytes as u64);
                out
            },
            PublishError::NotAFailureFact => copy_text(
                "failure fact queue must be `fkst.failure_fact`",
            ),
        }
    }
}

/// Refuses a payload whose text is longer than a durable delivery may hold.
pub fn ensure_payload_within_bound(payload: &Json) -> (r: Result<(), PublishError>)
    ensures
        match r {
            Ok(_) => json_bytes(payload@).len() <= MAX_DURABLE_PAYLOAD_BYTES,
            Err(e) => e == (PublishError::OversizedPayload {
                bytes: json_bytes(payload@).len() as usize,
            }) && json_bytes(payload@).len() > MAX_DURABLE_PAYLOAD_BYTES,
        },
{
    let bytes: Vec<u8> = print_json(payload);
    if bytes.len() > MAX_DURABLE_PAYLOAD_BYTES {
        return Err(PublishError::OversizedPayload { bytes: bytes.len() });
    }
    Ok(())
}

/// The delivery of an event to one department.
pub open spec fn record_of(envelope: PublishEnvelope, dept: Seq<char>, now_ms: u64) -> DeliveryView {
    let event = envelope.event@;
    let identity = identity_of(
        event.queue,
        dept,
        source_view(envelope.source),
        derived_view(envelope.derived),
        given_key(event.payload),
        named_source(event.payload),
    );
    DeliveryView {
        delivery_id: identity.delivery_id,
        queue: event.queue,
        dept,
        payload: event.payload,
        source: source_view(envelope.source),
        cron_payload: optional_json_view(envelope.cron_payload),
        observed_at_ms: event.ts,
        attempt: 0,
        redrive_count: 0,
        collapse_by_dedup_id: identity.collapse_by_dedup_id,
        pending_dirty: false,
        subscriber_absent_since_ms: None,
        lease_generation: 0,
        lease_until_ms: None,
        not_before_ms: now_ms,
        last_error_excerpt: None,
    }
}

/// What is done for one subscriber, or behind the last.
pub enum PublishAction {
    /// The delivery is put into the store.
    Enqueue(DeliveryRecord),
    /// The event goes out with those for all ephemeral subscribers.
    Ephemeral,
    /// The event is sent to all ephemeral subscribers.
    Fanout,
    /// There is nothing to do.
    Done,
}

/// Whether any subscription is not reliable.
pub open spec fn any_ephemeral(s: Seq<SubscriptionView>) -> bool {
    exists|i: int| 0 <= i < s.len() && !(#[trigger] s[i]).reliable
}

/// What is done for one subscriber of an event, or behind the last. A reliable delivery needs a
/// source, a store, and a payload within bounds.
pub fn publish_step(
    envelope: &PublishEnvelope,
    subscribers: &Vec<Subscription>,
    at: usize,
    store_open: bool,
    now_ms: u64,
) -> (r: Result<PublishAction, PublishError>)
    requires
        at <= subscribers@.len(),
        envelope.derived matches Some(d) ==> text_fits(d@.parent_delivery_id),
    ensures
        ({
            let subs = subscription_views(subscribers@);
            let payload_bytes = json_bytes(envelope.event@.payload).len();
            if at == subscribers@.len() {
                r == Ok::<PublishAction, PublishError>(
                    if any_ephemeral(subs) {
                        PublishAction::Fanout
                    } else {
                        PublishAction::Done
                    },
                )
            } else if !subs[at as int].reliable {
                r == Ok::<PublishAction, PublishError>(PublishAction::Ephemeral)
            } else if envelope.source is None {
                r matches Err(e) && (e matches PublishError::MissingSource { queue, dept } && queue@
                    == envelope.event@.queue && dept@ == subs[at as int].dept)
            } else if !store_open {
                r == Err::<PublishAction, PublishError>(PublishError::StoreNotOpen)
            } else if payload_bytes > MAX_DURABLE_PAYLOAD_BYTES {
                r == Err::<PublishAction, PublishError>(
                    PublishError::OversizedPayload { bytes: payload_bytes as usize },
                )
            } else {
                r matches Ok(PublishAction::Enqueue(record)) && record@ == record_of(
                    *envelope,
                    subs[at as int].dept,
                    now_ms,
                )
            }
        }),
{
    let ghost subs = subscription_views(subscribers@);
    if at == subscribers.len() {
        let mut i: usize = 0;
        while i < subscribers.len()
            invariant
                subs == subscription_views(subscribers@),
                at == subscribers@.len(),
                i <= subscribers@.len(),
                forall|k: int| 0 <= k < i ==> (#[trigger] subs[k]).reliable,
            decreases subscribers@.len() - i,
        {
            if !subscribers[i].reliable {
                assert(!subs[i as int].reliable);
                return Ok(PublishAction::Fanout);
            }
            i = i + 1;
        }
        return Ok(PublishAction::Done);
    }
    let sub: &Subscription = &subscribers[at];
    assert(subs[at as int] == sub@);
    if !sub.reliable {
        return Ok(PublishAction::Ephemeral);
    }
    let queue: &str = envelope.event.queue.as_str();
    if envelope.source.is_none() {
        return Err(
            PublishError::MissingSource {
                queue: copy_text(queue),
                dept: copy_text(sub.dept.as_str()),
            },
        );
    }
    if !store_open {
        return Err(PublishError::StoreNotOpen);
    }
    match ensure_payload_within_bound(&envelope.event.payload) {
        Ok(_) => {},
        Err(e) => return Err(e),
    }
    let key: Option<String> = match envelope.event.payload.text_at("dedup_key") {
        Some(key) => if !key.as_str().is_empty() {
            Some(key)
        } else {
            None
        },
        None => None,
    };
    let given: Option<&str> = match &key {
        Some(key) => Some(key.as_str()),
        None => None,
    };
    let named: Option<SourceRef> = payload_source_ref(&envelope.event.payload);
    let identity: DeliveryIdentity = derive_delivery_identity(
        queue,
        sub.dept.as_str(),
        &envelope.source,
        &envelope.derived,
        given,
        &named,
    );
    Ok(
        PublishAction::Enqueue(
            DeliveryRecord {
                delivery_id: identity.delivery_id,
                queue: copy_text(queue),
                dept: copy_text(sub.dept.as_str()),
                payload: envelope.event.payload.copy(),
                source: copy_source(&envelope.source),
                cron_payload: copy_optional_json(&envelope.cron_payload),
                observed_at_ms: envelope.event.ts,
                attempt: 0,
                redrive_count: 0,
                collapse_by_dedup_id: identity.collapse_by_dedup_id,
                pending_dirty: false,
                subscriber_absent_since_ms: None,
                lease_generation: 0,
                lease_until_ms: None,
                not_before_ms: now_ms,
                last_error_excerpt: None,
            },
        ),
    )
}

/// Why an event is published.
pub open spec fn reason_of(envelope: PublishEnvelope) -> Seq<char> {
    if envelope.derived is Some {
        "raised"@
    } else if envelope.cron_payload is Some {
        "cron"@
    } else if envelope.source is Some {
        "source"@
    } else {
        "ephemeral"@
    }
}

pub fn publish_reason(envelope: &PublishEnvelope) -> (r: &'static str)
    ensures
        r@ == reason_of(*envelope),
{
    if envelope.derived.is_some() {
        "raised"
    } else if envelope.cron_payload.is_some() {
        "cron"
    } else if envelope.source.is_some() {
        "source"
    } else {
        "ephemeral"
    }
}

/// What the journal says of an event that is published.
pub fn published_fields(envelope: &PublishEnvelope, subscribers: usize) -> (r: Vec<Field>)
    ensures
        fields_view(r@) == seq![
            ("queue"@, envelope.event@.queue),
            ("subscriber_count"@, decimal(subscribers as nat)),
            ("reason"@, reason_of(*envelope)),
        ],
{
    let count: String = decimal_text(subscribers as u64);
    let out: Vec<Field> = vec![
        field("queue", envelope.event.queue.as_str()),
        field("subscriber_count", count.as_str()),
        field("reason", publish_reason(envelope)),
    ];
    assert(fields_view(out@) =~= seq![
        ("queue"@, envelope.event@.queue),
        ("subscriber_count"@, decimal(subscribers as nat)),
        ("reason"@, reason_of(*envelope)),
    ]);
    out
}

/// What the journal says of a delivery: its id where it is kept, and that it is ephemeral where it
/// is not.
pub fn delivered_fields(queue: &str, dept: &str, delivery_id: Option<&str>) -> (r: Vec<Field>)
    ensures
        fields_view(r@) == seq![
            ("queue"@, queue@),
            ("dept"@, dept@),
            (
                "delivery_id"@,
                match delivery_id {
                    Some(id) => id@,
                    None => "ephemeral"@,
                },
            ),
            (
                "reason"@,
                if delivery_id is Some {
                    "durable_enqueue"@
                } else {
                    "ephemeral_fanout"@
                },
            ),
        ],
{
    let (id, reason): (&str, &str) = match delivery_id {
        Some(id) => (id, "durable_enqueue"),
        None => ("ephemeral", "ephemeral_fanout"),
    };
    let out: Vec<Field> = vec![
        field("queue", queue),
        field("dept", dept),
        field("delivery_id", id),
        field("reason", reason),
    ];
    assert(fields_view(out@) =~= seq![
        ("queue"@, queue@),
        ("dept"@, dept@),
        ("delivery_id"@, id@),
        ("reason"@, reason@),
    ]);
    out
}

/// The source of a failure fact.
pub open spec fn fact_source(event: EventView) -> SourceView {
    SourceView {
        kind: SourceKind::External,
        reference: "fkst.failure_fact.v1/"@ + (match event.payload.text_at("fingerprint"@) {
            Some(f) => f,
            None => "unknown"@,
        }) + "/"@ + decimal(event.ts as nat),
    }
}

pub fn failure_fact_source(event: &Event) -> (r: SourceRef)
    ensures
        r@ == fact_source(event@),
{
    let mut reference: String = copy_text("fkst.failure_fact.v1/");
    match event.payload.text_at("fingerprint") {
        Some(f) => reference.append(f.as_str()),
        None => reference.append("unknown"),
    }
    reference.append("/");
    push_decimal(&mut reference, event.ts);
    SourceRef { kind: SourceKind::External, reference }
}

impl DeliveryRouter {
    /// Starts to publish an event: what it says of the liveness of its queue is made what its source
    /// says, and the subscriptions to its queue are looked up.
    pub fn start_publish(&self, envelope: &mut PublishEnvelope) -> (r: Result<
        &Vec<Subscription>,
        PublishError,
    >)
        ensures
            final(envelope).event@ == canonical(
                old(envelope).event@,
                match old(envelope).source {
                    Some(s) => Some(s@.reference),
                    None => None,
                },
            ),
            final(envelope).source == old(envelope).source,
            final(envelope).cron_payload == old(envelope).cron_payload,
            final(envelope).derived == old(envelope).derived,
            match r {
                Ok(subs) => self.at(final(envelope).event@.queue) == Some(
                    subscription_views(subs@),
                ),
                Err(e) => self.at(final(envelope).event@.queue) is None && (
                e matches PublishError::NoSubscriptions { queue } && queue@
                    == final(envelope).event@.queue),
            },
    {
        canonicalize_event(&mut envelope.event, &envelope.source);
        match self.subscribers(envelope.event.queue.as_str()) {
            Some(subs) => Ok(subs),
            None => Err(
                PublishError::NoSubscriptions { queue: copy_text(envelope.event.queue.as_str()) },
            ),
        }
    }

    /// What is published of a failure fact: nothing where nobody takes failure facts.
    pub fn failure_fact_envelope(&self, event: Event) -> (r: Result<
        Option<PublishEnvelope>,
        PublishError,
    >)
        ensures
            if event@.queue != "fkst.failure_fact"@ {
                r == Err::<Option<PublishEnvelope>, PublishError>(PublishError::NotAFailureFact)
            } else {
                match r {
                    Ok(Some(envelope)) => (self.at("fkst.failure_fact"@) matches Some(subs)
                        && subs.len() > 0) && envelope.event == event && source_view(
                        envelope.source,
                    ) == Some(fact_source(event@)) && envelope.cron_payload is None
                        && envelope.derived is None,
                    Ok(None) => self.at("fkst.failure_fact"@) matches Some(subs) ==> subs.len()
                        == 0,
                    Err(_) => false,
                }
            },
    {
        if !same_text(event.queue.as_str(), "fkst.failure_fact") {
            return Err(PublishError::NotAFailureFact);
        }
        match self.subscribers("fkst.failure_fact") {
            None => Ok(None),
            Some(subs) => {
                if subs.len() == 0 {
                    return Ok(None);
                }
                let source: SourceRef = failure_fact_source(&event);
                Ok(
                    Some(
                        PublishEnvelope {
                            event,
                            source: Some(source),
                            cron_payload: None,
                            derived: None,
                        },
                    ),
                )
            },
        }
    }
}

} // verus!
