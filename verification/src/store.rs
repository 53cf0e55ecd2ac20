//! The durable state and the operations over it: seat registry, conversation
//! directory and message log.
//!
//! All durable entities live in one `Store` value, the model of the key-value
//! collaborator: seat claim markers, conversation metadata with a per-room
//! index of conversation ids, and per-conversation message logs kept in the
//! order of their storage keys — (timestamp, message id), the order the
//! zero-padded key layout realises lexicographically.

use vstd::prelude::*;
use vstd::relations::sorted_by;

use crate::bytes::{copy_bytes, eq_bytes, lemma_lex_le_total, lemma_lex_le_trans, lex_le,
    lex_le_bytes};
use crate::convo::{conv_id_of, country_le, derive_id, sort_countries};
use crate::country::{country_from_bytes, country_of, Country};
use crate::error::ApiError;
use crate::token::{make_token, room_ok, token_spec, Claims};

verus! {

/// Longest accepted message content, in bytes.
pub const MAX_CONTENT_LENGTH: usize = 4096;

/// Most messages one read returns.
pub const MAX_MSG_FETCH: usize = 200;

/// A claimed seat: the (room, country) pair, present once claimed, forever.
pub struct Seat {
    pub room: Vec<u8>,
    pub country: Country,
}

pub struct SeatView {
    pub room: Seq<u8>,
    pub country: Country,
}

impl View for Seat {
    type V = SeatView;

    open spec fn view(&self) -> SeatView {
        SeatView { room: self.room@, country: self.country }
    }
}

/// Conversation metadata: the room and the canonically sorted participants.
pub struct ConvMeta {
    pub room: Vec<u8>,
    pub participants: Vec<Country>,
}

pub struct ConvMetaView {
    pub room: Seq<u8>,
    pub participants: Seq<Country>,
}

impl View for ConvMeta {
    type V = ConvMetaView;

    open spec fn view(&self) -> ConvMetaView {
        ConvMetaView { room: self.room@, participants: self.participants@ }
    }
}

/// One stored message.
pub struct Message {
    pub message_id: Vec<u8>,
    pub room: Vec<u8>,
    pub conversation_id: Vec<u8>,
    pub sender: Country,
    pub content: Vec<u8>,
    pub timestamp: u64,
}

pub struct MessageView {
    pub message_id: Seq<u8>,
    pub room: Seq<u8>,
    pub conversation_id: Seq<u8>,
    pub sender: Country,
    pub content: Seq<u8>,
    pub timestamp: u64,
}

impl View for Message {
    type V = MessageView;

    open spec fn view(&self) -> MessageView {
        MessageView {
            message_id: self.message_id@,
            room: self.room@,
            conversation_id: self.conversation_id@,
            sender: self.sender,
            content: self.content@,
            timestamp: self.timestamp,
        }
    }
}

impl Message {
    /// A field-for-field copy.
    pub fn duplicate(&self) -> (r: Message)
        ensures
            r@ == self@,
    {
        Message {
            message_id: copy_bytes(&self.message_id),
            room: copy_bytes(&self.room),
            conversation_id: copy_bytes(&self.conversation_id),
            sender: self.sender,
            content: copy_bytes(&self.content),
            timestamp: self.timestamp,
        }
    }
}

/// A conversation: its id, its immutable metadata, and its message log in
/// storage-key order.
pub struct Conversation {
    pub id: Vec<u8>,
    pub meta: ConvMeta,
    pub entries: Vec<Message>,
}

pub struct ConvView {
    pub id: Seq<u8>,
    pub meta: ConvMetaView,
    pub entries: Seq<MessageView>,
}

impl View for Conversation {
    type V = ConvView;

    open spec fn view(&self) -> ConvView {
        ConvView {
            id: self.id@,
            meta: self.meta@,
            entries: self.entries@.map_values(|m: Message| m@),
        }
    }
}

/// The append-only, de-duplicated list of conversation ids of one room.
pub struct RoomIndex {
    pub room: Vec<u8>,
    pub ids: Vec<Vec<u8>>,
}

pub struct RoomIndexView {
    pub room: Seq<u8>,
    pub ids: Seq<Seq<u8>>,
}

impl View for RoomIndex {
    type V = RoomIndexView;

    open spec fn view(&self) -> RoomIndexView {
        RoomIndexView { room: self.room@, ids: self.ids@.map_values(|v: Vec<u8>| v@) }
    }
}

/// All durable state.
pub struct Store {
    pub seats: Vec<Seat>,
    pub convs: Vec<Conversation>,
    pub rooms: Vec<RoomIndex>,
}

pub struct StoreView {
    pub seats: Seq<SeatView>,
    pub convs: Seq<ConvView>,
    pub rooms: Seq<RoomIndexView>,
}

impl View for Store {
    type V = StoreView;

    open spec fn view(&self) -> StoreView {
        StoreView {
            seats: self.seats@.map_values(|s: Seat| s@),
            convs: self.convs@.map_values(|c: Conversation| c@),
            rooms: self.rooms@.map_values(|r: RoomIndex| r@),
        }
    }
}

/// Storage-key order of two messages of one conversation: by timestamp, ties
/// by message id.  The zero-padded decimal timestamp in the storage key makes
/// the key's lexicographic order coincide with this order.
pub open spec fn msg_le(a: MessageView, b: MessageView) -> bool {
    a.timestamp < b.timestamp || (a.timestamp == b.timestamp && lex_le(
        a.message_id,
        b.message_id,
    ))
}

/// One direction of `msg_le` always holds.
pub proof fn lemma_msg_le_total(a: MessageView, b: MessageView)
    ensures
        msg_le(a, b) || msg_le(b, a),
{
    if a.timestamp == b.timestamp {
        lemma_lex_le_total(a.message_id, b.message_id);
    }
}

/// `msg_le` is transitive.
pub proof fn lemma_msg_le_trans(a: MessageView, b: MessageView, c: MessageView)
    requires
        msg_le(a, b),
        msg_le(b, c),
    ensures
        msg_le(a, c),
{
    if a.timestamp == b.timestamp && b.timestamp == c.timestamp {
        lemma_lex_le_trans(a.message_id, b.message_id, c.message_id);
    }
}

/// A message log in storage-key order.
pub open spec fn entries_sorted(s: Seq<MessageView>) -> bool {
    forall|i: int, j: int| 0 <= i < j < s.len() ==> msg_le(#[trigger] s[i], #[trigger] s[j])
}

/// A log in `msg_le` order is exactly a log whose zero-padded storage keys
/// ascend lexicographically, whatever the conversation's key prefix: the
/// in-memory order of `entries` is the order a sorted prefix listing of the
/// key-value collaborator would return.
pub proof fn lemma_entries_sorted_is_key_sorted(prefix: Seq<u8>, s: Seq<MessageView>)
    ensures
        entries_sorted(s) <==> forall|i: int, j: int|
            0 <= i < j < s.len() ==> lex_le(
                crate::keys::msg_key(prefix, (#[trigger] s[i]).timestamp, s[i].message_id),
                crate::keys::msg_key(prefix, (#[trigger] s[j]).timestamp, s[j].message_id),
            ),
{
    assert forall|i: int, j: int| 0 <= i < j < s.len() implies (msg_le(
        #[trigger] s[i],
        #[trigger] s[j],
    ) == lex_le(
        crate::keys::msg_key(prefix, s[i].timestamp, s[i].message_id),
        crate::keys::msg_key(prefix, s[j].timestamp, s[j].message_id),
    )) by {
        crate::keys::lemma_key_order(
            prefix,
            s[i].timestamp,
            s[i].message_id,
            s[j].timestamp,
            s[j].message_id,
        );
    }
}

/// Well-formedness of one conversation: 2-3 distinct participants in
/// canonical order, and every logged message belongs to it, names a
/// participant as sender, respects the content bounds, and sits in key order.
pub open spec fn conv_wf(c: ConvView) -> bool {
    &&& 2 <= c.meta.participants.len() <= 3
    &&& sorted_by(c.meta.participants, country_le())
    &&& forall|i: int, j: int|
        0 <= i < j < c.meta.participants.len() ==> c.meta.participants[i]
            != c.meta.participants[j]
    &&& forall|k: int|
        0 <= k < c.entries.len() ==> {
            &&& (#[trigger] c.entries[k]).conversation_id == c.id
            &&& c.entries[k].room == c.meta.room
            &&& c.meta.participants.contains(c.entries[k].sender)
            &&& 1 <= c.entries[k].content.len() <= MAX_CONTENT_LENGTH
        }
    &&& entries_sorted(c.entries)
}

impl StoreView {
    /// Whether the (room, country) seat is claimed.
    pub open spec fn seat_taken(self, room: Seq<u8>, c: Country) -> bool {
        exists|i: int|
            0 <= i < self.seats.len() && (#[trigger] self.seats[i]).room == room
                && self.seats[i].country == c
    }

    /// Store invariant: unique conversation ids, well-formed conversations,
    /// unique room-index rooms, and no duplicate id inside a room's index.
    pub open spec fn wf(self) -> bool {
        &&& forall|i: int, j: int|
            0 <= i < j < self.convs.len() ==> (#[trigger] self.convs[i]).id != (
            #[trigger] self.convs[j]).id
        &&& forall|i: int| 0 <= i < self.convs.len() ==> conv_wf(#[trigger] self.convs[i])
        &&& forall|i: int, j: int|
            0 <= i < j < self.rooms.len() ==> (#[trigger] self.rooms[i]).room != (
            #[trigger] self.rooms[j]).room
        &&& forall|i: int|
            0 <= i < self.rooms.len() ==> forall|p: int, q: int|
                0 <= p < q < (#[trigger] self.rooms[i]).ids.len() ==> self.rooms[i].ids[p]
                    != self.rooms[i].ids[q]
    }
}

/// The first conversation with this id, scanning from the front.
pub open spec fn find_conv(convs: Seq<ConvView>, id: Seq<u8>) -> Option<ConvView>
    decreases convs.len(),
{
    if convs.len() == 0 {
        None
    } else if convs[0].id == id {
        Some(convs[0])
    } else {
        find_conv(convs.drop_first(), id)
    }
}

/// `find_conv` finds the match at `k` when nothing earlier matches.
pub proof fn lemma_find_conv_at(convs: Seq<ConvView>, id: Seq<u8>, k: int)
    requires
        0 <= k < convs.len(),
        convs[k].id == id,
        forall|j: int| 0 <= j < k ==> (#[trigger] convs[j]).id != id,
    ensures
        find_conv(convs, id) == Some(convs[k]),
    decreases k,
{
    if k > 0 {
        lemma_find_conv_at(convs.drop_first(), id, k - 1);
    }
}

/// `find_conv` returns `None` exactly when no conversation has the id.
pub proof fn lemma_find_conv_none(convs: Seq<ConvView>, id: Seq<u8>)
    requires
        forall|j: int| 0 <= j < convs.len() ==> (#[trigger] convs[j]).id != id,
    ensures
        find_conv(convs, id) is None,
    decreases convs.len(),
{
    if convs.len() > 0 {
        lemma_find_conv_none(convs.drop_first(), id);
    }
}

/// The index of one room in the directory.
pub open spec fn find_room(rooms: Seq<RoomIndexView>, room: Seq<u8>) -> Option<RoomIndexView>
    decreases rooms.len(),
{
    if rooms.len() == 0 {
        None
    } else if rooms[0].room == room {
        Some(rooms[0])
    } else {
        find_room(rooms.drop_first(), room)
    }
}

pub proof fn lemma_find_room_at(rooms: Seq<RoomIndexView>, room: Seq<u8>, k: int)
    requires
        0 <= k < rooms.len(),
        rooms[k].room == room,
        forall|j: int| 0 <= j < k ==> (#[trigger] rooms[j]).room != room,
    ensures
        find_room(rooms, room) == Some(rooms[k]),
    decreases k,
{
    if k > 0 {
        lemma_find_room_at(rooms.drop_first(), room, k - 1);
    }
}

/// What `find_room` returns is a genuine hit, or nothing matches.
pub proof fn lemma_find_room_props(rooms: Seq<RoomIndexView>, room: Seq<u8>)
    ensures
        match find_room(rooms, room) {
            Some(e) => e.room == room && exists|k: int|
                0 <= k < rooms.len() && #[trigger] rooms[k] == e,
            None => forall|k: int| 0 <= k < rooms.len() ==> (#[trigger] rooms[k]).room != room,
        },
    decreases rooms.len(),
{
    if rooms.len() > 0 && rooms[0].room != room {
        lemma_find_room_props(rooms.drop_first(), room);
        match find_room(rooms.drop_first(), room) {
            Some(e) => {
                let k = choose|k: int|
                    0 <= k < rooms.drop_first().len() && #[trigger] rooms.drop_first()[k] == e;
                assert(rooms[k + 1] == e);
            },
            None => {
                assert forall|k: int| 0 <= k < rooms.len() implies (#[trigger] rooms[k]).room
                    != room by {
                    if k > 0 {
                        assert(rooms.drop_first()[k - 1].room != room);
                    }
                }
            },
        }
    }
}

pub proof fn lemma_find_room_none(rooms: Seq<RoomIndexView>, room: Seq<u8>)
    requires
        forall|j: int| 0 <= j < rooms.len() ==> (#[trigger] rooms[j]).room != room,
    ensures
        find_room(rooms, room) is None,
    decreases rooms.len(),
{
    if rooms.len() > 0 {
        lemma_find_room_none(rooms.drop_first(), room);
    }
}

impl Store {
    /// An empty store.
    pub fn new() -> (r: Store)
        ensures
            r@.seats.len() == 0,
            r@.convs.len() == 0,
            r@.rooms.len() == 0,
            r@.wf(),
    {
        Store { seats: Vec::new(), convs: Vec::new(), rooms: Vec::new() }
    }

    /// The position of the conversation with this id, if any.
    fn find_conv_index(&self, id: &Vec<u8>) -> (r: Option<usize>)
        ensures
            match r {
                Some(k) => k < self@.convs.len() && self@.convs[k as int].id == id@ && find_conv(
                    self@.convs,
                    id@,
                ) == Some(self@.convs[k as int]),
                None => find_conv(self@.convs, id@) is None,
            },
    {
        let mut i: usize = 0;
        while i < self.convs.len()
            invariant
                i <= self@.convs.len(),
                self@.convs.len() == self.convs@.len(),
                forall|j: int| 0 <= j < i ==> (#[trigger] self@.convs[j]).id != id@,
        decreases self@.convs.len() - i,
        {
            if eq_bytes(&self.convs[i].id, id) {
                proof {
                    lemma_find_conv_at(self@.convs, id@, i as int);
                }
                return Some(i);
            }
            i = i + 1;
        }
        proof {
            lemma_find_conv_none(self@.convs, id@);
        }
        None
    }

    /// The position of the room's index entry, if any.
    fn find_room_index(&self, room: &Vec<u8>) -> (r: Option<usize>)
        ensures
            match r {
                Some(k) => k < self@.rooms.len() && self@.rooms[k as int].room == room@
                    && find_room(self@.rooms, room@) == Some(self@.rooms[k as int]),
                None => find_room(self@.rooms, room@) is None,
            },
    {
        let mut i: usize = 0;
        while i < self.rooms.len()
            invariant
                i <= self@.rooms.len(),
                self@.rooms.len() == self.rooms@.len(),
                forall|j: int| 0 <= j < i ==> (#[trigger] self@.rooms[j]).room != room@,
        decreases self@.rooms.len() - i,
        {
            if eq_bytes(&self.rooms[i].room, room) {
                proof {
                    lemma_find_room_at(self@.rooms, room@, i as int);
                }
                return Some(i);
            }
            i = i + 1;
        }
        proof {
            lemma_find_room_none(self@.rooms, room@);
        }
        None
    }

    /// Whether the seat is claimed.
    fn seat_lookup(&self, room: &Vec<u8>, c: Country) -> (r: bool)
        ensures
            r == self@.seat_taken(room@, c),
    {
        let mut i: usize = 0;
        while i < self.seats.len()
            invariant
                i <= self@.seats.len(),
                self@.seats.len() == self.seats@.len(),
                forall|j: int|
                    0 <= j < i ==> !((#[trigger] self@.seats[j]).room == room@
                        && self@.seats[j].country == c),
        decreases self@.seats.len() - i,
        {
            if self.seats[i].country == c && eq_bytes(&self.seats[i].room, room) {
                proof {
                    assert((self@.seats[i as int]).room == room@ && self@.seats[i as int].country
                        == c);
                }
                return true;
            }
            i = i + 1;
        }
        false
    }

    /// Seat registry: claims (room, country) and issues its token.
    ///
    /// The claim marker is committed before the token is issued; with no
    /// atomic check-and-set in the collaborating store, two concurrent
    /// first-time claims remain an accepted race.  There is no un-claim.
    pub fn claim_seat(&mut self, secret: &Vec<u8>, room: &Vec<u8>, country_name: &Vec<u8>) -> (r:
        Result<Vec<u8>, ApiError>)
        requires
            old(self)@.wf(),
        ensures
            final(self)@.wf(),
            match r {
                Ok(token) => {
                    &&& country_of(country_name@) matches Some(c) && {
                        &&& room_ok(room@)
                        &&& !old(self)@.seat_taken(room@, c)
                        &&& token@ == token_spec(secret@, room@, c)
                        &&& final(self)@.seats == old(self)@.seats.push(
                            SeatView { room: room@, country: c },
                        )
                        &&& final(self)@.seat_taken(room@, c)
                    }
                    &&& final(self)@.convs == old(self)@.convs
                    &&& final(self)@.rooms == old(self)@.rooms
                },
                Err(e) => {
                    &&& final(self)@ == old(self)@
                    &&& (e == ApiError::BadRequest <==> (country_of(country_name@) is None
                        || !room_ok(room@)))
                    &&& (e == ApiError::Conflict <==> (country_of(country_name@) matches Some(c)
                        && room_ok(room@) && old(self)@.seat_taken(room@, c)))
                    &&& (e == ApiError::BadRequest || e == ApiError::Conflict)
                },
            },
    {
        let c = match country_from_bytes(country_name) {
            Some(c) => c,
            None => {
                return Err(ApiError::BadRequest);
            },
        };
        if room.len() == 0 || room.len() > 64 {
            return Err(ApiError::BadRequest);
        }
        if self.seat_lookup(room, c) {
            return Err(ApiError::Conflict);
        }
        let ghost pre = self@;
        self.seats.push(Seat { room: copy_bytes(room), country: c });
        proof {
            assert(self@.seats =~= pre.seats.push(SeatView { room: room@, country: c }));
            assert(self@.convs =~= pre.convs);
            assert(self@.rooms =~= pre.rooms);
            assert(self@.seats[pre.seats.len() as int].room == room@);
        }
        Ok(make_token(secret, room, c))
    }
}

/// The views of a list of byte-vector names.
pub open spec fn name_views(names: Seq<Vec<u8>>) -> Seq<Seq<u8>> {
    names.map_values(|v: Vec<u8>| v@)
}

/// Every name is a country of the closed set.
pub open spec fn all_countries_valid(names: Seq<Seq<u8>>) -> bool {
    forall|i: int| 0 <= i < names.len() ==> country_of(#[trigger] names[i]) is Some
}

/// Some name occurs twice.
pub open spec fn has_duplicate(names: Seq<Seq<u8>>) -> bool {
    exists|i: int, j: int| 0 <= i < j < names.len() && names[i] == names[j]
}

/// The countries the names parse to (meaningful only when all are valid).
pub open spec fn countries_of_names(names: Seq<Seq<u8>>) -> Seq<Country> {
    names.map_values(|n: Seq<u8>| country_of(n).unwrap())
}

/// How one create call changes a room's conversation index: a fresh room gets
/// a one-element index; a known room gets the id appended unless present.
pub open spec fn rooms_updated(
    pre: Seq<RoomIndexView>,
    post: Seq<RoomIndexView>,
    room: Seq<u8>,
    id: Seq<u8>,
) -> bool {
    match find_room(pre, room) {
        None => post == pre.push(RoomIndexView { room: room, ids: seq![id] }),
        Some(entry) => if entry.ids.contains(id) {
            post == pre
        } else {
            exists|k: int|
                0 <= k < pre.len() && (#[trigger] pre[k]).room == room && post == pre.update(
                    k,
                    RoomIndexView { room: pre[k].room, ids: pre[k].ids.push(id) },
                )
        },
    }
}

/// What `find_conv` returns is a genuine hit, or nothing matches.
pub proof fn lemma_find_conv_props(convs: Seq<ConvView>, id: Seq<u8>)
    ensures
        match find_conv(convs, id) {
            Some(c) => c.id == id && exists|k: int|
                0 <= k < convs.len() && #[trigger] convs[k] == c,
            None => forall|k: int| 0 <= k < convs.len() ==> (#[trigger] convs[k]).id != id,
        },
    decreases convs.len(),
{
    if convs.len() > 0 && convs[0].id != id {
        lemma_find_conv_props(convs.drop_first(), id);
        match find_conv(convs.drop_first(), id) {
            Some(c) => {
                let k = choose|k: int|
                    0 <= k < convs.drop_first().len() && #[trigger] convs.drop_first()[k] == c;
                assert(convs[k + 1] == c);
            },
            None => {
                assert forall|k: int| 0 <= k < convs.len() implies (#[trigger] convs[k]).id
                    != id by {
                    if k > 0 {
                        assert(convs.drop_first()[k - 1].id != id);
                    }
                }
            },
        }
    }
}

/// A conversation just created is found by its id.
///
/// Together with `create_conversation`'s contract this is the idempotence
/// law: a second create of the same membership finds the metadata, changes
/// nothing, and returns the same id.
pub proof fn lemma_create_then_find(pre: Seq<ConvView>, c: ConvView)
    requires
        find_conv(pre, c.id) is None,
    ensures
        find_conv(pre.push(c), c.id) == Some(c),
{
    lemma_find_conv_props(pre, c.id);
    assert(pre.push(c)[pre.len() as int] == c);
    assert forall|j: int| 0 <= j < pre.len() implies (#[trigger] pre.push(c)[j]).id != c.id by {
        assert(pre.push(c)[j] == pre[j]);
    }
    lemma_find_conv_at(pre.push(c), c.id, pre.len() as int);
}

/// A listed conversation entry: its id and its participant list.
pub struct ConversationInfo {
    pub conversation_id: Vec<u8>,
    pub participants: Vec<Country>,
}

pub struct ConversationInfoView {
    pub conversation_id: Seq<u8>,
    pub participants: Seq<Country>,
}

impl View for ConversationInfo {
    type V = ConversationInfoView;

    open spec fn view(&self) -> ConversationInfoView {
        ConversationInfoView {
            conversation_id: self.conversation_id@,
            participants: self.participants@,
        }
    }
}

/// The conversations among `ids` whose participants include `c`, in index
/// order, with their participant lists.
pub open spec fn visible_convs(s: StoreView, ids: Seq<Seq<u8>>, c: Country) -> Seq<
    ConversationInfoView,
>
    decreases ids.len(),
{
    if ids.len() == 0 {
        Seq::empty()
    } else {
        let rest = visible_convs(s, ids.drop_first(), c);
        match find_conv(s.convs, ids[0]) {
            Some(conv) => if conv.meta.participants.contains(c) {
                seq![
                    ConversationInfoView {
                        conversation_id: ids[0],
                        participants: conv.meta.participants,
                    },
                ] + rest
            } else {
                rest
            },
            None => rest,
        }
    }
}

/// What a list call returns: the caller's room index filtered to the
/// conversations the caller belongs to.
pub open spec fn list_spec(s: StoreView, room: Seq<u8>, c: Country) -> Seq<ConversationInfoView> {
    match find_room(s.rooms, room) {
        None => Seq::empty(),
        Some(entry) => visible_convs(s, entry.ids, c),
    }
}

/// Whether a country list contains `c`.
fn contains_country(v: &Vec<Country>, c: Country) -> (r: bool)
    ensures
        r == v@.contains(c),
{
    let mut i: usize = 0;
    while i < v.len()
        invariant
            i <= v@.len(),
            forall|j: int| 0 <= j < i ==> v@[j] != c,
        decreases v@.len() - i,
    {
        if v[i] == c {
            return true;
        }
        i = i + 1;
    }
    false
}

/// A field-for-field copy of a country list.
fn copy_countries(v: &Vec<Country>) -> (r: Vec<Country>)
    ensures
        r@ == v@,
{
    let mut out: Vec<Country> = Vec::new();
    let mut i: usize = 0;
    while i < v.len()
        invariant
            i <= v@.len(),
            out@ == v@.subrange(0, i as int),
        decreases v@.len() - i,
    {
        out.push(v[i]);
        i = i + 1;
        proof {
            assert(v@.subrange(0, i - 1).push(v@[i - 1]) =~= v@.subrange(0, i as int));
        }
    }
    proof {
        assert(v@.subrange(0, v@.len() as int) =~= v@);
    }
    out
}

/// Whether an id list contains `id`, comparing contents.
fn contains_id(ids: &Vec<Vec<u8>>, id: &Vec<u8>) -> (r: bool)
    ensures
        r == ids@.map_values(|v: Vec<u8>| v@).contains(id@),
{
    let ghost idsv = ids@.map_values(|v: Vec<u8>| v@);
    let mut i: usize = 0;
    while i < ids.len()
        invariant
            i <= ids@.len(),
            idsv == ids@.map_values(|v: Vec<u8>| v@),
            idsv.len() == ids@.len(),
            forall|j: int| 0 <= j < i ==> idsv[j] != id@,
        decreases ids@.len() - i,
    {
        if eq_bytes(&ids[i], id) {
            proof {
                assert(idsv[i as int] == id@);
            }
            return true;
        }
        i = i + 1;
    }
    false
}

impl Store {
    /// Conversation directory: derives the deterministic id for the
    /// membership, persists metadata and indexes the id on first creation,
    /// and returns the id either way — creation is idempotent.
    #[verifier::loop_isolation(false)]
    pub fn create_conversation(
        &mut self,
        claims: &Claims,
        room: &Vec<u8>,
        participant_names: &Vec<Vec<u8>>,
    ) -> (r: Result<Vec<u8>, ApiError>)
        requires
            old(self)@.wf(),
        ensures
            final(self)@.wf(),
            final(self)@.seats == old(self)@.seats,
            ({
                let names = name_views(participant_names@);
                let unauth = room@ != claims.room@;
                let bad = !(2 <= names.len() <= 3) || !all_countries_valid(names)
                    || has_duplicate(names);
                let cs = countries_of_names(names);
                let id = conv_id_of(claims.room@, cs);
                match r {
                    Err(e) => {
                        &&& final(self)@ == old(self)@
                        &&& (e == ApiError::Unauthorized <==> unauth)
                        &&& (e == ApiError::BadRequest <==> (!unauth && bad))
                        &&& (e == ApiError::Forbidden <==> (!unauth && !bad && !cs.contains(
                            claims.country,
                        )))
                        &&& (e == ApiError::Unauthorized || e == ApiError::BadRequest || e
                            == ApiError::Forbidden)
                    },
                    Ok(rid) => {
                        &&& !unauth && !bad && cs.contains(claims.country)
                        &&& rid@ == id
                        &&& match find_conv(old(self)@.convs, id) {
                            Some(_) => final(self)@ == old(self)@,
                            None => {
                                &&& final(self)@.convs == old(self)@.convs.push(
                                    ConvView {
                                        id: id,
                                        meta: ConvMetaView {
                                            room: claims.room@,
                                            participants: cs.sort_by(country_le()),
                                        },
                                        entries: Seq::empty(),
                                    },
                                )
                                &&& rooms_updated(
                                    old(self)@.rooms,
                                    final(self)@.rooms,
                                    claims.room@,
                                    id,
                                )
                            },
                        }
                    },
                }
            }),
    {
        let ghost names = name_views(participant_names@);
        if !eq_bytes(room, &claims.room) {
            return Err(ApiError::Unauthorized);
        }
        let n: usize = participant_names.len();
        if n < 2 || n > 3 {
            return Err(ApiError::BadRequest);
        }
        let mut cs: Vec<Country> = Vec::new();
        let mut i: usize = 0;
        while i < participant_names.len()
            invariant
                names == name_views(participant_names@),
                names.len() == participant_names@.len(),
                i <= names.len(),
                cs@.len() == i,
                forall|j: int|
                    0 <= j < i ==> country_of(#[trigger] names[j]) is Some && cs@[j] == country_of(
                        names[j],
                    ).unwrap(),
                forall|p: int, q: int| 0 <= p < q < i ==> names[p] != names[q],
            decreases names.len() - i,
        {
            let c = match country_from_bytes(&participant_names[i]) {
                Some(c) => c,
                None => {
                    proof {
                        assert(country_of(names[i as int]) is None);
                    }
                    return Err(ApiError::BadRequest);
                },
            };
            let mut j: usize = 0;
            while j < i
                invariant
                    names == name_views(participant_names@),
                    names.len() == participant_names@.len(),
                    j <= i < names.len(),
                    forall|p: int| 0 <= p < j ==> names[p] != names[i as int],
                decreases i - j,
            {
                if eq_bytes(&participant_names[j], &participant_names[i]) {
                    proof {
                        assert(names[j as int] == names[i as int]);
                        assert(has_duplicate(names));
                    }
                    return Err(ApiError::BadRequest);
                }
                j = j + 1;
            }
            cs.push(c);
            i = i + 1;
        }
        proof {
            assert(cs@ =~= countries_of_names(names));
        }
        if !contains_country(&cs, claims.country) {
            return Err(ApiError::Forbidden);
        }
        let id = derive_id(&claims.room, &cs);
        let ghost pre = self@;
        if self.find_conv_index(&id).is_some() {
            return Ok(id);
        }
        // first creation: persist metadata, then index the id in its room
        let sorted = sort_countries(&cs);
        proof {
            broadcast use vstd::seq_lib::group_to_multiset_ensures;
            broadcast use vstd::multiset::group_multiset_axioms;

            // the participants stay distinct through sorting
            assert forall|p: int, q: int|
                0 <= p < q < cs@.len() implies cs@[p] != cs@[q] by {
                crate::country::lemma_country_of_inverse(names[p]);
                crate::country::lemma_country_of_inverse(names[q]);
            }
            assert(cs@.no_duplicates());
            cs@.lemma_multiset_has_no_duplicates();
            assert(sorted@.to_multiset() == cs@.to_multiset());
            sorted@.lemma_multiset_has_no_duplicates_conv();
            assert(sorted@.len() == sorted@.to_multiset().len());
            assert(cs@.len() == cs@.to_multiset().len());
            assert(sorted@.len() == cs@.len());
        }
        let ghost convv = ConvView {
            id: id@,
            meta: ConvMetaView {
                room: claims.room@,
                participants: countries_of_names(names).sort_by(country_le()),
            },
            entries: Seq::empty(),
        };
        let conv = Conversation {
            id: copy_bytes(&id),
            meta: ConvMeta { room: copy_bytes(&claims.room), participants: sorted },
            entries: Vec::new(),
        };
        proof {
            assert(conv@.entries =~= Seq::<MessageView>::empty());
            assert(conv@ == convv);
        }
        self.convs.push(conv);
        proof {
            assert(self@.convs =~= pre.convs.push(convv));
            assert(self@.rooms =~= pre.rooms);
            assert(self@.seats =~= pre.seats);
            lemma_find_conv_props(pre.convs, id@);
            assert(conv_wf(convv));
            assert forall|i: int| 0 <= i < self@.convs.len() implies conv_wf(
                #[trigger] self@.convs[i],
            ) by {
                if i < pre.convs.len() {
                    assert(self@.convs[i] == pre.convs[i]);
                } else {
                    assert(self@.convs[i] == convv);
                }
            }
        }
        let ghost mid = self@;
        match self.find_room_index(&claims.room) {
            Some(k) => {
                let ghost entryv = mid.rooms[k as int];
                let mut entry = self.rooms.remove(k);
                proof {
                    assert(entry@ == entryv);
                }
                if !contains_id(&entry.ids, &id) {
                    entry.ids.push(copy_bytes(&id));
                    proof {
                        assert(entry@.ids =~= entryv.ids.push(id@));
                    }
                }
                self.rooms.insert(k, entry);
                proof {
                    assert(self@.rooms =~= mid.rooms.remove(k as int).insert(k as int, entry@));
                    if entryv.ids.contains(id@) {
                        assert(entry@ == entryv);
                        assert(self@.rooms =~= mid.rooms);
                    } else {
                        assert(self@.rooms =~= mid.rooms.update(
                            k as int,
                            RoomIndexView { room: entryv.room, ids: entryv.ids.push(id@) },
                        ));
                        assert forall|p: int, q: int|
                            0 <= p < q < entry@.ids.len() implies entry@.ids[p]
                            != entry@.ids[q] by {
                            if q == entryv.ids.len() {
                                assert(entry@.ids[p] == entryv.ids[p]);
                                assert(!entryv.ids.contains(id@));
                                assert(entryv.ids[p] != id@);
                            }
                        }
                    }
                    assert(self@.convs =~= mid.convs);
                    assert(self@.seats =~= mid.seats);
                    assert(rooms_updated(pre.rooms, self@.rooms, claims.room@, id@));
                }
            },
            None => {
                let mut ids: Vec<Vec<u8>> = Vec::new();
                ids.push(copy_bytes(&id));
                proof {
                    assert(ids@.map_values(|v: Vec<u8>| v@) =~= seq![id@]);
                }
                self.rooms.push(RoomIndex { room: copy_bytes(&claims.room), ids });
                proof {
                    lemma_find_room_props(mid.rooms, claims.room@);
                    assert(self@.rooms =~= mid.rooms.push(
                        RoomIndexView { room: claims.room@, ids: seq![id@] },
                    ));
                    assert(self@.convs =~= mid.convs);
                    assert(self@.seats =~= mid.seats);
                    assert forall|i: int, j: int|
                        0 <= i < j < self@.rooms.len() implies (#[trigger] self@.rooms[i]).room
                        != (#[trigger] self@.rooms[j]).room by {
                        if j < mid.rooms.len() {
                            assert(self@.rooms[i] == mid.rooms[i]);
                            assert(self@.rooms[j] == mid.rooms[j]);
                        } else {
                            assert(self@.rooms[i] == mid.rooms[i]);
                            assert(mid.rooms[i].room != claims.room@);
                        }
                    }
                    assert forall|i: int|
                        0 <= i < self@.rooms.len() implies forall|p: int, q: int|
                        0 <= p < q < (#[trigger] self@.rooms[i]).ids.len()
                            ==> self@.rooms[i].ids[p] != self@.rooms[i].ids[q] by {
                        if i < mid.rooms.len() {
                            assert(self@.rooms[i] == mid.rooms[i]);
                        } else {
                            assert(self@.rooms[i].ids =~= seq![id@]);
                        }
                    }
                    assert(rooms_updated(pre.rooms, self@.rooms, claims.room@, id@));
                }
            },
        }
        Ok(id)
    }

    /// Conversation directory: the caller's room index, filtered to the
    /// conversations the caller belongs to.  Conversations of other rooms are
    /// never visible, because the index itself is room-scoped.
    #[verifier::loop_isolation(false)]
    pub fn list_conversations(&self, claims: &Claims, room: &Vec<u8>) -> (r: Result<
        Vec<ConversationInfo>,
        ApiError,
    >)
        requires
            self@.wf(),
        ensures
            match r {
                Ok(v) => room@ == claims.room@ && v@.map_values(|ci: ConversationInfo| ci@)
                    == list_spec(self@, claims.room@, claims.country),
                Err(e) => e == ApiError::Unauthorized && room@ != claims.room@,
            },
    {
        if !eq_bytes(room, &claims.room) {
            return Err(ApiError::Unauthorized);
        }
        let k = match self.find_room_index(&claims.room) {
            Some(k) => k,
            None => {
                let none_visible: Vec<ConversationInfo> = Vec::new();
                proof {
                    assert(none_visible@.map_values(|ci: ConversationInfo| ci@) =~= Seq::<
                        ConversationInfoView,
                    >::empty());
                }
                return Ok(none_visible);
            },
        };
        let ghost entry = self@.rooms[k as int];
        let mut out: Vec<ConversationInfo> = Vec::new();
        let mut i: usize = 0;
        proof {
            assert(entry.ids.skip(0) =~= entry.ids);
        }
        while i < self.rooms[k].ids.len()
            invariant
                i <= entry.ids.len(),
                out@.map_values(|ci: ConversationInfo| ci@) + visible_convs(
                    self@,
                    entry.ids.skip(i as int),
                    claims.country,
                ) == visible_convs(self@, entry.ids, claims.country),
            decreases entry.ids.len() - i,
        {
            let ghost outpre = out@.map_values(|ci: ConversationInfo| ci@);
            let id_ref = &self.rooms[k].ids[i];
            proof {
                assert(id_ref@ == entry.ids[i as int]);
            }
            match self.find_conv_index(id_ref) {
                Some(ci) => {
                    let conv = &self.convs[ci];
                    proof {
                        assert(conv@ == self@.convs[ci as int]);
                    }
                    if contains_country(&conv.meta.participants, claims.country) {
                        out.push(
                            ConversationInfo {
                                conversation_id: copy_bytes(id_ref),
                                participants: copy_countries(&conv.meta.participants),
                            },
                        );
                        proof {
                            assert(out@.map_values(|ci: ConversationInfo| ci@) =~= outpre.push(
                                ConversationInfoView {
                                    conversation_id: entry.ids[i as int],
                                    participants: self@.convs[ci as int].meta.participants,
                                },
                            ));
                        }
                    }
                },
                None => {
                },
            }
            i = i + 1;
            proof {
                let ids = entry.ids;
                assert(ids.skip(i - 1).drop_first() =~= ids.skip(i as int));
                assert(ids.skip(i - 1)[0] == ids[i - 1]);
                assert(outpre + visible_convs(self@, ids.skip(i - 1), claims.country)
                    == visible_convs(self@, ids, claims.country));
                match find_conv(self@.convs, ids[i - 1]) {
                    Some(conv) => {
                        if conv.meta.participants.contains(claims.country) {
                            let info = ConversationInfoView {
                                conversation_id: ids[i - 1],
                                participants: conv.meta.participants,
                            };
                            assert(visible_convs(self@, ids.skip(i - 1), claims.country)
                                == seq![info] + visible_convs(
                                self@,
                                ids.skip(i as int),
                                claims.country,
                            ));
                            assert(outpre + (seq![info] + visible_convs(
                                self@,
                                ids.skip(i as int),
                                claims.country,
                            )) =~= outpre.push(info) + visible_convs(
                                self@,
                                ids.skip(i as int),
                                claims.country,
                            ));
                        }
                    },
                    None => {
                    },
                }
            }
        }
        proof {
            assert(entry.ids.skip(entry.ids.len() as int) =~= Seq::<Seq<u8>>::empty());
        }
        Ok(out)
    }
}

/// Whether a message's storage key lies strictly beyond the boundary key a
/// read with `since` synthesizes (`pad20(since)` followed by the separator):
/// everything is beyond it when `since` is zero, as is every later timestamp
/// and every message at `since` itself whose id is non-empty.
pub open spec fn after_boundary(m: MessageView, since: u64) -> bool {
    since == 0 || m.timestamp > since || (m.timestamp == since && m.message_id.len() > 0)
}

/// What a read returns: the log filtered to entries beyond the boundary, in
/// order, capped at `cap` entries.
pub open spec fn read_spec(s: Seq<MessageView>, since: u64, cap: nat) -> Seq<MessageView>
    decreases s.len(),
{
    if s.len() == 0 || cap == 0 {
        Seq::empty()
    } else if after_boundary(s[0], since) {
        seq![s[0]] + read_spec(s.drop_first(), since, (cap - 1) as nat)
    } else {
        read_spec(s.drop_first(), since, cap)
    }
}

/// A read with `since == 0` and room for the whole log returns it unchanged.
pub proof fn lemma_read_spec_all(s: Seq<MessageView>, cap: nat)
    requires
        cap >= s.len(),
    ensures
        read_spec(s, 0, cap) == s,
    decreases s.len(),
{
    if s.len() == 0 {
        assert(read_spec(s, 0, cap) =~= s);
    } else {
        lemma_read_spec_all(s.drop_first(), (cap - 1) as nat);
        assert(seq![s[0]] + s.drop_first() =~= s);
    }
}

/// Every returned message comes from the log and lies beyond the boundary; in
/// particular, with `since > 0` nothing older than `since` is ever returned.
pub proof fn lemma_read_spec_bounds(s: Seq<MessageView>, since: u64, cap: nat)
    ensures
        read_spec(s, since, cap).len() <= cap,
        forall|k: int|
            0 <= k < read_spec(s, since, cap).len() ==> s.contains(
                #[trigger] read_spec(s, since, cap)[k],
            ) && after_boundary(read_spec(s, since, cap)[k], since),
    decreases s.len(),
{
    if s.len() == 0 || cap == 0 {
    } else {
        let rest = s.drop_first();
        assert forall|x: MessageView| rest.contains(x) implies s.contains(x) by {
            let j = choose|j: int| 0 <= j < rest.len() && rest[j] == x;
            assert(s[j + 1] == x);
        }
        if after_boundary(s[0], since) {
            lemma_read_spec_bounds(rest, since, (cap - 1) as nat);
            assert(s.contains(s[0])) by {
                assert(s[0] == s[0]);
            }
        } else {
            lemma_read_spec_bounds(rest, since, cap);
        }
    }
}

/// A read of a log in key order comes back in key order.
pub proof fn lemma_read_spec_sorted(s: Seq<MessageView>, since: u64, cap: nat)
    requires
        entries_sorted(s),
    ensures
        entries_sorted(read_spec(s, since, cap)),
    decreases s.len(),
{
    if s.len() == 0 || cap == 0 {
    } else {
        let rest = s.drop_first();
        assert(entries_sorted(rest)) by {
            assert forall|i: int, j: int| 0 <= i < j < rest.len() implies msg_le(
                #[trigger] rest[i],
                #[trigger] rest[j],
            ) by {
                assert(rest[i] == s[i + 1] && rest[j] == s[j + 1]);
            }
        }
        if after_boundary(s[0], since) {
            lemma_read_spec_sorted(rest, since, (cap - 1) as nat);
            lemma_read_spec_bounds(rest, since, (cap - 1) as nat);
            let picked = read_spec(rest, since, (cap - 1) as nat);
            let whole = read_spec(s, since, cap);
            assert forall|i: int, j: int| 0 <= i < j < whole.len() implies msg_le(
                #[trigger] whole[i],
                #[trigger] whole[j],
            ) by {
                if i == 0 {
                    assert(whole[j] == picked[j - 1]);
                    assert(rest.contains(picked[j - 1]));
                    let t = choose|t: int| 0 <= t < rest.len() && rest[t] == picked[j - 1];
                    assert(msg_le(s[0], s[t + 1]));
                } else {
                    assert(whole[i] == picked[i - 1] && whole[j] == picked[j - 1]);
                }
            }
        } else {
            lemma_read_spec_sorted(rest, since, cap);
        }
    }
}

/// Insertion of a message into a log at its key-order position.
pub open spec fn insert_sorted(s: Seq<MessageView>, m: MessageView) -> Seq<MessageView>
    decreases s.len(),
{
    if s.len() > 0 && msg_le(s[0], m) {
        seq![s[0]] + insert_sorted(s.drop_first(), m)
    } else {
        seq![m] + s
    }
}

/// Insertion adds exactly the new message.
pub proof fn lemma_insert_sorted_elems(s: Seq<MessageView>, m: MessageView)
    ensures
        insert_sorted(s, m).len() == s.len() + 1,
        forall|k: int|
            0 <= k < insert_sorted(s, m).len() ==> (#[trigger] insert_sorted(s, m)[k] == m
                || s.contains(insert_sorted(s, m)[k])),
    decreases s.len(),
{
    if s.len() > 0 && msg_le(s[0], m) {
        let rest = s.drop_first();
        lemma_insert_sorted_elems(rest, m);
        assert forall|k: int|
            0 <= k < insert_sorted(s, m).len() implies (#[trigger] insert_sorted(s, m)[k] == m
            || s.contains(insert_sorted(s, m)[k])) by {
            if k == 0 {
                assert(s.contains(s[0])) by {
                    assert(s[0] == s[0]);
                }
            } else {
                let x = insert_sorted(s, m)[k];
                assert(x == insert_sorted(rest, m)[k - 1]);
                if x != m {
                    let t = choose|t: int| 0 <= t < rest.len() && rest[t] == x;
                    assert(s[t + 1] == x);
                }
            }
        }
    } else {
        assert forall|k: int|
            0 <= k < insert_sorted(s, m).len() implies (#[trigger] insert_sorted(s, m)[k] == m
            || s.contains(insert_sorted(s, m)[k])) by {
            if k > 0 {
                assert(insert_sorted(s, m)[k] == s[k - 1]);
            }
        }
    }
}

/// Insertion keeps the log in key order.
pub proof fn lemma_insert_sorted_sorted(s: Seq<MessageView>, m: MessageView)
    requires
        entries_sorted(s),
    ensures
        entries_sorted(insert_sorted(s, m)),
    decreases s.len(),
{
    if s.len() > 0 && msg_le(s[0], m) {
        let rest = s.drop_first();
        assert(entries_sorted(rest)) by {
            assert forall|i: int, j: int| 0 <= i < j < rest.len() implies msg_le(
                #[trigger] rest[i],
                #[trigger] rest[j],
            ) by {
                assert(rest[i] == s[i + 1] && rest[j] == s[j + 1]);
            }
        }
        lemma_insert_sorted_sorted(rest, m);
        lemma_insert_sorted_elems(rest, m);
        let whole = insert_sorted(s, m);
        let tail = insert_sorted(rest, m);
        assert forall|i: int, j: int| 0 <= i < j < whole.len() implies msg_le(
            #[trigger] whole[i],
            #[trigger] whole[j],
        ) by {
            if i == 0 {
                assert(whole[j] == tail[j - 1]);
                if tail[j - 1] == m {
                } else {
                    assert(rest.contains(tail[j - 1]));
                    let t = choose|t: int| 0 <= t < rest.len() && rest[t] == tail[j - 1];
                    assert(msg_le(s[0], s[t + 1]));
                }
            } else {
                assert(whole[i] == tail[i - 1] && whole[j] == tail[j - 1]);
            }
        }
    } else {
        let whole = insert_sorted(s, m);
        assert forall|i: int, j: int| 0 <= i < j < whole.len() implies msg_le(
            #[trigger] whole[i],
            #[trigger] whole[j],
        ) by {
            if i == 0 {
                assert(whole[j] == s[j - 1]);
                if s.len() > 0 {
                    lemma_msg_le_total(s[0], m);
                    if j > 1 {
                        assert(msg_le(s[0], s[j - 1]));
                        lemma_msg_le_trans(m, s[0], s[j - 1]);
                    }
                }
            } else {
                assert(whole[i] == s[i - 1] && whole[j] == s[j - 1]);
            }
        }
    }
}

/// Inserting at the first position whose entry is beyond the new message is
/// the specification insertion.
pub proof fn lemma_insert_sorted_at(s: Seq<MessageView>, m: MessageView, p: int)
    requires
        0 <= p <= s.len(),
        forall|k: int| 0 <= k < p ==> msg_le(#[trigger] s[k], m),
        p == s.len() || !msg_le(s[p], m),
    ensures
        insert_sorted(s, m) == s.insert(p, m),
    decreases p,
{
    if p == 0 {
        if s.len() > 0 {
            assert(!msg_le(s[0], m));
        }
        assert(insert_sorted(s, m) =~= s.insert(0, m));
    } else {
        let rest = s.drop_first();
        assert(msg_le(s[0], m));
        assert forall|k: int| 0 <= k < p - 1 implies msg_le(#[trigger] rest[k], m) by {
            assert(rest[k] == s[k + 1]);
        }
        if p < s.len() {
            assert(rest[p - 1] == s[p]);
        }
        lemma_insert_sorted_at(rest, m, p - 1);
        assert(seq![s[0]] + rest.insert(p - 1, m) =~= s.insert(p, m));
    }
}

/// Whether a log entry's key is at or before the key (t, id).
fn entry_le(e: &Message, t: u64, id: &Vec<u8>) -> (r: bool)
    ensures
        r == (e@.timestamp < t || (e@.timestamp == t && lex_le(e@.message_id, id@))),
{
    e.timestamp < t || (e.timestamp == t && lex_le_bytes(&e.message_id, id))
}

/// Relies on uuid::Uuid::new_v4 and the hyphenated form of its Display: a
/// freshly generated random id rendered as 36 ASCII bytes.  Nothing else is
/// assumed: two calls may or may not collide.
#[verifier::external_body]
fn fresh_message_id() -> (r: Vec<u8>)
    ensures
        r@.len() == 36,
{
    uuid::Uuid::new_v4().to_string().into_bytes()
}

impl Store {
    /// Message log: appends `content` to a conversation at the server-assigned
    /// time `now`, under a fresh random message id, keeping the log in
    /// storage-key order.
    #[verifier::loop_isolation(false)]
    pub fn append_message(
        &mut self,
        claims: &Claims,
        conversation_id: &Vec<u8>,
        content: &Vec<u8>,
        now: u64,
    ) -> (r: Result<Vec<u8>, ApiError>)
        requires
            old(self)@.wf(),
        ensures
            final(self)@.wf(),
            final(self)@.seats == old(self)@.seats,
            final(self)@.rooms == old(self)@.rooms,
            match r {
                Err(e) => {
                    &&& final(self)@ == old(self)@
                    &&& (e == ApiError::BadRequest <==> !(1 <= content@.len()
                        <= MAX_CONTENT_LENGTH))
                    &&& (e == ApiError::NotFound <==> (1 <= content@.len() <= MAX_CONTENT_LENGTH
                        && find_conv(old(self)@.convs, conversation_id@) is None))
                    &&& (e == ApiError::Forbidden <==> (1 <= content@.len() <= MAX_CONTENT_LENGTH
                        && (find_conv(old(self)@.convs, conversation_id@) matches Some(conv) && !(
                        conv.meta.room == claims.room@ && conv.meta.participants.contains(
                            claims.country,
                        )))))
                    &&& (e == ApiError::BadRequest || e == ApiError::NotFound || e
                        == ApiError::Forbidden)
                },
                Ok(mid) => {
                    &&& 1 <= content@.len() <= MAX_CONTENT_LENGTH
                    &&& find_conv(old(self)@.convs, conversation_id@) matches Some(conv) && {
                        &&& conv.meta.room == claims.room@
                        &&& conv.meta.participants.contains(claims.country)
                    }
                    &&& mid@.len() == 36
                    &&& exists|k: int|
                        {
                            &&& 0 <= k < old(self)@.convs.len()
                            &&& (#[trigger] old(self)@.convs[k]).id == conversation_id@
                            &&& final(self)@.convs == old(self)@.convs.update(
                                k,
                                ConvView {
                                    id: old(self)@.convs[k].id,
                                    meta: old(self)@.convs[k].meta,
                                    entries: insert_sorted(
                                        old(self)@.convs[k].entries,
                                        MessageView {
                                            message_id: mid@,
                                            room: claims.room@,
                                            conversation_id: conversation_id@,
                                            sender: claims.country,
                                            content: content@,
                                            timestamp: now,
                                        },
                                    ),
                                },
                            )
                        }
                },
            },
    {
        if content.len() == 0 || content.len() > MAX_CONTENT_LENGTH {
            return Err(ApiError::BadRequest);
        }
        let k = match self.find_conv_index(conversation_id) {
            Some(k) => k,
            None => {
                return Err(ApiError::NotFound);
            },
        };
        let allowed = eq_bytes(&self.convs[k].meta.room, &claims.room) && contains_country(
            &self.convs[k].meta.participants,
            claims.country,
        );
        if !allowed {
            return Err(ApiError::Forbidden);
        }
        let ghost pre = self@;
        let mid = fresh_message_id();
        let message = Message {
            message_id: copy_bytes(&mid),
            room: copy_bytes(&claims.room),
            conversation_id: copy_bytes(conversation_id),
            sender: claims.country,
            content: copy_bytes(content),
            timestamp: now,
        };
        let ghost mv = message@;
        let mut conv = self.convs.remove(k);
        let mut j: usize = 0;
        while j < conv.entries.len() && entry_le(&conv.entries[j], now, &mid)
            invariant
                j <= conv@.entries.len(),
                forall|t: int| 0 <= t < j ==> msg_le(#[trigger] conv@.entries[t], mv),
            decreases conv@.entries.len() - j,
        {
            j = j + 1;
        }
        proof {
            if (j as int) < conv@.entries.len() {
                assert(!msg_le(conv@.entries[j as int], mv));
            }
            lemma_insert_sorted_at(conv@.entries, mv, j as int);
            lemma_insert_sorted_sorted(conv@.entries, mv);
            lemma_insert_sorted_elems(conv@.entries, mv);
        }
        let ghost convpre = conv@;
        conv.entries.insert(j, message);
        proof {
            assert(conv@.entries =~= convpre.entries.insert(j as int, mv));
            assert(conv@.entries == insert_sorted(convpre.entries, mv));
            assert(conv_wf(conv@)) by {
                assert forall|t: int| 0 <= t < conv@.entries.len() implies {
                    &&& (#[trigger] conv@.entries[t]).conversation_id == conv@.id
                    &&& conv@.entries[t].room == conv@.meta.room
                    &&& conv@.meta.participants.contains(conv@.entries[t].sender)
                    &&& 1 <= conv@.entries[t].content.len() <= MAX_CONTENT_LENGTH
                } by {
                    if conv@.entries[t] != mv {
                        assert(convpre.entries.contains(conv@.entries[t]));
                        let w = choose|w: int|
                            0 <= w < convpre.entries.len() && convpre.entries[w]
                                == conv@.entries[t];
                        assert(conv_wf(pre.convs[k as int]));
                    }
                }
            }
        }
        self.convs.insert(k, conv);
        proof {
            assert(self@.convs =~= pre.convs.remove(k as int).insert(k as int, conv@));
            assert(self@.convs =~= pre.convs.update(
                k as int,
                ConvView {
                    id: pre.convs[k as int].id,
                    meta: pre.convs[k as int].meta,
                    entries: insert_sorted(pre.convs[k as int].entries, mv),
                },
            ));
            assert(self@.seats =~= pre.seats);
            assert(self@.rooms =~= pre.rooms);
            assert forall|i: int| 0 <= i < self@.convs.len() implies conv_wf(
                #[trigger] self@.convs[i],
            ) by {
                if i != k {
                    assert(self@.convs[i] == pre.convs[i]);
                }
            }
        }
        Ok(mid)
    }

    /// Message log: the messages of a conversation beyond `since`, oldest
    /// first, at most `MAX_MSG_FETCH` of them.  Pagination is client-driven:
    /// the caller resubmits the newest timestamp it has seen.
    #[verifier::loop_isolation(false)]
    pub fn read_messages(&self, claims: &Claims, conversation_id: &Vec<u8>, since: u64) -> (r:
        Result<Vec<Message>, ApiError>)
        requires
            self@.wf(),
        ensures
            match r {
                Err(e) => {
                    &&& (e == ApiError::NotFound <==> find_conv(
                        self@.convs,
                        conversation_id@,
                    ) is None)
                    &&& (e == ApiError::Forbidden <==> ((find_conv(self@.convs, conversation_id@)
                        matches Some(conv) && !(conv.meta.room == claims.room@
                        && conv.meta.participants.contains(claims.country)))))
                    &&& (e == ApiError::NotFound || e == ApiError::Forbidden)
                },
                Ok(v) => {
                    &&& find_conv(self@.convs, conversation_id@) matches Some(conv) && {
                        &&& conv.meta.room == claims.room@
                        &&& conv.meta.participants.contains(claims.country)
                        &&& v@.map_values(|m: Message| m@) == read_spec(
                            conv.entries,
                            since,
                            MAX_MSG_FETCH as nat,
                        )
                    }
                },
            },
    {
        let k = match self.find_conv_index(conversation_id) {
            Some(k) => k,
            None => {
                return Err(ApiError::NotFound);
            },
        };
        let allowed = eq_bytes(&self.convs[k].meta.room, &claims.room) && contains_country(
            &self.convs[k].meta.participants,
            claims.country,
        );
        if !allowed {
            return Err(ApiError::Forbidden);
        }
        let ghost ev = self@.convs[k as int].entries;
        let mut out: Vec<Message> = Vec::new();
        let mut i: usize = 0;
        proof {
            assert(ev.skip(0) =~= ev);
        }
        while i < self.convs[k].entries.len() && out.len() < MAX_MSG_FETCH
            invariant
                i <= ev.len(),
                out@.len() <= MAX_MSG_FETCH,
                out@.map_values(|m: Message| m@) + read_spec(
                    ev.skip(i as int),
                    since,
                    (MAX_MSG_FETCH - out@.len()) as nat,
                ) == read_spec(ev, since, MAX_MSG_FETCH as nat),
            decreases ev.len() - i,
        {
            let ghost outpre = out@.map_values(|m: Message| m@);
            let ghost cap = (MAX_MSG_FETCH - out@.len()) as nat;
            let m = &self.convs[k].entries[i];
            proof {
                assert(m@ == ev[i as int]);
                assert(ev.skip(i as int)[0] == ev[i as int]);
                assert(ev.skip(i as int).drop_first() =~= ev.skip(i + 1));
            }
            if since == 0 || m.timestamp > since || (m.timestamp == since && m.message_id.len()
                > 0) {
                out.push(m.duplicate());
                proof {
                    assert(out@.map_values(|m: Message| m@) =~= outpre.push(ev[i as int]));
                    assert(outpre + (seq![ev[i as int]] + read_spec(
                        ev.skip(i + 1),
                        since,
                        (cap - 1) as nat,
                    )) =~= outpre.push(ev[i as int]) + read_spec(
                        ev.skip(i + 1),
                        since,
                        (cap - 1) as nat,
                    ));
                }
            }
            i = i + 1;
        }
        proof {
            if i == ev.len() {
                assert(ev.skip(i as int) =~= Seq::<MessageView>::empty());
            }
        }
        Ok(out)
    }
}

} // verus!
