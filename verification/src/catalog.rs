//! The catalogue of official packs.

use vstd::prelude::*;
use vstd::slice::slice_subrange;

use crate::sorting::order_of;
use crate::text::{
    chars_of, position_from, push_decimal, push_text, string_of,
};

verus! {

/// What the strings in `texts` hold.
pub open spec fn texts_of(texts: Seq<String>) -> Seq<Seq<char>> {
    Seq::new(texts.len(), |i: int| texts[i]@)
}

pub open spec fn is_ascii_digit(c: char) -> bool {
    '0' <= c <= '9'
}

pub open spec fn is_ascii_letter(c: char) -> bool {
    'a' <= c <= 'z' || 'A' <= c <= 'Z'
}

/// The letters and digits at the front of `text`.
pub open spec fn leading_name(text: Seq<char>) -> Seq<char>
    decreases text.len(),
{
    if text.len() > 0 && (is_ascii_digit(text[0]) || is_ascii_letter(text[0])) {
        seq![text[0]] + leading_name(text.drop_first())
    } else {
        seq![]
    }
}

/// The identifiers of the packs that `body` links to, in order and with repetitions. An
/// identifier is a letter and at least one more letter or digit.
pub open spec fn linked_packs(body: Seq<char>) -> Seq<Seq<char>>
    decreases body.len(),
{
    match crate::text::find(body, "/beatmaps/packs/"@) {
        Some(at) if 0 <= at && at + 16 <= body.len() => {
            let rest = body.skip(at + 16);
            let id = leading_name(rest);
            if id.len() > 1 && is_ascii_letter(id[0]) {
                seq![id] + linked_packs(rest)
            } else {
                linked_packs(rest)
            }
        },
        _ => seq![],
    }
}

fn ascii_digit(c: char) -> (answer: bool)
    ensures
        answer == is_ascii_digit(c),
{
    '0' <= c && c <= '9'
}

fn ascii_letter(c: char) -> (answer: bool)
    ensures
        answer == is_ascii_letter(c),
{
    ('a' <= c && c <= 'z') || ('A' <= c && c <= 'Z')
}

fn name_at_front(text: &[char]) -> (name: Vec<char>)
    ensures
        name@ == leading_name(text@),
{
    let mut name: Vec<char> = Vec::new();
    let mut i: usize = 0;
    assert(text@.skip(0) =~= text@);
    assert(name@ + leading_name(text@.skip(0)) =~= leading_name(text@));
    while i < text.len() && (ascii_digit(text[i]) || ascii_letter(text[i]))
        invariant
            i <= text@.len(),
            name@ + leading_name(text@.skip(i as int)) == leading_name(text@),
        decreases text@.len() - i,
    {
        let ghost before = name@;
        name.push(text[i]);
        assert(text@.skip(i as int).drop_first() =~= text@.skip(i + 1));
        assert(name@ + leading_name(text@.skip(i + 1)) =~= before + leading_name(
            text@.skip(i as int),
        ));
        i = i + 1;
    }
    assert(leading_name(text@.skip(i as int)) =~= seq![]);
    name
}

/// The identifiers of the packs that a catalogue page links to, in order.
pub fn extract_pack_ids(body: &str) -> (ids: Vec<String>)
    ensures
        texts_of(ids@) == linked_packs(body@),
{
    let source: Vec<char> = chars_of(body);
    let marker: Vec<char> = chars_of("/beatmaps/packs/");
    proof {
        reveal_strlit("/beatmaps/packs/");
    }
    let mut ids: Vec<String> = Vec::new();
    let mut rest: &[char] = source.as_slice();
    assert(texts_of(ids@) + linked_packs(rest@) =~= linked_packs(body@));
    loop
        invariant
            marker@ == "/beatmaps/packs/"@,
            marker@.len() == 16,
            texts_of(ids@) + linked_packs(rest@) == linked_packs(body@),
        decreases rest@.len(),
    {
        let ghost whole = rest@;
        let ghost before = ids@;
        let at: usize = match position_from(rest, marker.as_slice(), 0) {
            Some(at) => at,
            None => {
                assert(texts_of(ids@) + linked_packs(rest@) =~= texts_of(ids@));
                return ids;
            },
        };
        proof {
            crate::text::lemma_find_from_is_first(whole, marker@, 0);
        }
        let count: usize = rest.len();
        rest = slice_subrange(rest, at + 16, count);
        assert(rest@ =~= whole.skip(at + 16));
        let id: Vec<char> = name_at_front(rest);
        if id.len() > 1 && ascii_letter(id[0]) {
            ids.push(string_of(id.as_slice()));
            assert(texts_of(ids@) =~= texts_of(before) + seq![id@]);
        }
        assert(texts_of(ids@) + linked_packs(rest@) =~= texts_of(before) + linked_packs(whole));
    }
}

/// Whether `text` is `prefix` and then digits, at least one.
pub open spec fn is_numbered(text: Seq<char>, prefix: Seq<char>) -> bool {
    &&& crate::text::starts_with(text, prefix)
    &&& text.len() > prefix.len()
    &&& forall|i: int| prefix.len() <= i < text.len() ==> is_ascii_digit(#[trigger] text[i])
}

/// Whether a pack is of the osu!standard series: `S` and a number.
pub open spec fn is_standard_pack(pack_id: Seq<char>) -> bool {
    is_numbered(pack_id, "S"@)
}

/// Whether a pack is of the series of another mode: `ST`, `SM` or `SC` and a number.
pub open spec fn is_nonstandard_pack(pack_id: Seq<char>) -> bool {
    is_numbered(pack_id, "ST"@) || is_numbered(pack_id, "SM"@) || is_numbered(pack_id, "SC"@)
}

fn numbered(text: &[char], prefix: &str) -> (answer: bool)
    ensures
        answer == is_numbered(text@, prefix@),
{
    let front: Vec<char> = chars_of(prefix);
    if !crate::text::occurs(text, front.as_slice(), 0) || text.len() == front.len() {
        return false;
    }
    let mut i: usize = front.len();
    while i < text.len()
        invariant
            front@ == prefix@,
            prefix@.len() <= i <= text@.len(),
            forall|k: int| prefix@.len() <= k < i ==> is_ascii_digit(#[trigger] text@[k]),
        decreases text@.len() - i,
    {
        if !ascii_digit(text[i]) {
            return false;
        }
        i = i + 1;
    }
    true
}

/// Whether a pack holds osu!standard beatmaps only, by its identifier.
pub fn is_standard_pack_id(pack_id: &str) -> (answer: bool)
    ensures
        answer == is_standard_pack(pack_id@),
{
    let id: Vec<char> = chars_of(pack_id);
    numbered(id.as_slice(), "S")
}

/// Whether a pack is known to hold no osu!standard beatmap, by its identifier.
pub fn is_known_nonstandard_pack_id(pack_id: &str) -> (answer: bool)
    ensures
        answer == is_nonstandard_pack(pack_id@),
{
    let id: Vec<char> = chars_of(pack_id);
    numbered(id.as_slice(), "ST") || numbered(id.as_slice(), "SM") || numbered(id.as_slice(), "SC")
}

/// No pack of the osu!standard series is taken for one of another mode.
pub proof fn law_standard_packs_are_never_excluded(pack_id: Seq<char>)
    ensures
        is_standard_pack(pack_id) ==> !is_nonstandard_pack(pack_id),
{
    reveal_strlit("S");
    reveal_strlit("ST");
    reveal_strlit("SM");
    reveal_strlit("SC");
    if is_standard_pack(pack_id) {
        assert(is_ascii_digit(pack_id[1]));
        if crate::text::starts_with(pack_id, "ST"@) {
            assert(pack_id.subrange(0, 2)[1] == 'T');
        }
        if crate::text::starts_with(pack_id, "SM"@) {
            assert(pack_id.subrange(0, 2)[1] == 'M');
        }
        if crate::text::starts_with(pack_id, "SC"@) {
            assert(pack_id.subrange(0, 2)[1] == 'C');
        }
    }
}

/// Whether a catalogue page links to a page behind it.
pub open spec fn has_next_page(body: Seq<char>) -> bool {
    crate::text::find(body, "pagination-v2__link pagination-v2__link--quick"@) is Some
}

/// Whether a catalogue page is followed by another: it has packs and a link to the next page.
pub open spec fn is_followed(body: Seq<char>) -> bool {
    linked_packs(body).len() > 0 && has_next_page(body)
}

/// How far a catalogue has been read.
pub struct WalkState {
    /// The identifiers found so far, in order and with repetitions.
    pub ids: Seq<Seq<char>>,
    /// The page to read next.
    pub page: Option<int>,
}

/// The state at the first page of another kind of packs.
pub open spec fn at_first_page(state: WalkState) -> WalkState {
    WalkState { ids: state.ids, page: Some(1) }
}

/// The state after a page was read.
pub open spec fn after_page(state: WalkState, body: Seq<char>) -> WalkState {
    WalkState {
        ids: state.ids + linked_packs(body),
        page: match state.page {
            Some(page) if is_followed(body) => Some(page + 1),
            _ => None,
        },
    }
}

/// The state after pages were read one after another.
pub open spec fn after_pages(state: WalkState, bodies: Seq<Seq<char>>) -> WalkState
    decreases bodies.len(),
{
    if bodies.len() == 0 {
        state
    } else {
        after_page(after_pages(state, bodies.drop_last()), bodies.last())
    }
}

/// The pages of the catalogue, as far as they have been read.
pub struct CatalogWalk {
    /// The identifiers found so far, in order and with repetitions.
    pub ids: Vec<String>,
    /// The page to read next.
    pub page: Option<u64>,
}

impl View for CatalogWalk {
    type V = WalkState;

    open spec fn view(&self) -> WalkState {
        WalkState {
            ids: texts_of(self.ids@),
            page: match self.page {
                Some(page) => Some(page as int),
                None => None,
            },
        }
    }
}

impl CatalogWalk {
    /// A walk that has read nothing and has no page to read.
    pub fn new() -> (walk: CatalogWalk)
        ensures
            walk.ids@ == Seq::<String>::empty(),
            walk.page is None,
    {
        CatalogWalk { ids: Vec::new(), page: None }
    }

    /// Turns to the first page of another kind of packs.
    pub fn start_type(&mut self)
        ensures
            final(self)@ == at_first_page(old(self)@),
    {
        self.page = Some(1);
    }

    /// Takes over a page that was read. The next page follows unless this one had no packs or
    /// no link to it.
    pub fn add_page(&mut self, body: &str)
        requires
            old(self).page matches Some(page) ==> page < u64::MAX,
        ensures
            final(self)@ == after_page(old(self)@, body@),
    {
        let ghost before = self.ids@;
        let found: Vec<String> = extract_pack_ids(body);
        let ghost packs = texts_of(found@);
        let mut i: usize = 0;
        assert(texts_of(before) + packs.take(0) =~= texts_of(before));
        while i < found.len()
            invariant
                i <= found@.len(),
                packs == texts_of(found@),
                self.page == old(self).page,
                texts_of(self.ids@) == texts_of(before) + packs.take(i as int),
            decreases found@.len() - i,
        {
            let ghost earlier = self.ids@;
            self.ids.push(found[i].clone());
            proof {
                assert(packs.take(i + 1) =~= packs.take(i as int).push(packs[i as int]));
                assert(texts_of(self.ids@) =~= texts_of(earlier).push(packs[i as int]));
                assert(texts_of(self.ids@) =~= texts_of(before) + packs.take(i + 1));
            }
            i = i + 1;
        }
        assert(packs.take(packs.len() as int) =~= packs);
        let text: Vec<char> = chars_of(body);
        let marker: Vec<char> = chars_of("pagination-v2__link pagination-v2__link--quick");
        let linked: bool = position_from(text.as_slice(), marker.as_slice(), 0).is_some();
        self.page =
        match self.page {
            Some(page) => if found.len() > 0 && linked {
                Some(page + 1)
            } else {
                None
            },
            None => None,
        };
    }
}

/// Whether `bodies` are all pages of one kind of packs: each is followed by the next one, and
/// the last by none.
pub open spec fn all_pages(bodies: Seq<Seq<char>>) -> bool {
    &&& bodies.len() > 0
    &&& forall|n: int| 0 <= n < bodies.len() - 1 ==> is_followed(#[trigger] bodies[n])
    &&& !is_followed(bodies.last())
}

/// Whether a pack is linked on one of the pages.
pub open spec fn is_listed(bodies: Seq<Seq<char>>, id: Seq<char>) -> bool {
    exists|n: int| 0 <= n < bodies.len() && linked_packs(#[trigger] bodies[n]).contains(id)
}

/// All pages of a kind of packs are read, and no other: after the first `count` of them the
/// page to read next is the one behind them, and after the last there is none. Then the packs
/// of every page have been found, in addition to those found before.
pub proof fn law_all_pages_are_read(state: WalkState, bodies: Seq<Seq<char>>, count: int)
    requires
        all_pages(bodies),
        0 <= count <= bodies.len(),
    ensures
        ({
            let after = after_pages(at_first_page(state), bodies.take(count));
            &&& after.page == if count < bodies.len() {
                Some(count + 1)
            } else {
                None
            }
            &&& forall|id: Seq<char>| #[trigger]
                after.ids.contains(id) <==> state.ids.contains(id) || is_listed(
                    bodies.take(count),
                    id,
                )
        }),
    decreases count,
{
    let read = bodies.take(count);
    if count > 0 {
        let front = bodies.take(count - 1);
        let body = bodies[count - 1];
        let earlier = after_pages(at_first_page(state), front);
        let after = after_pages(at_first_page(state), read);
        law_all_pages_are_read(state, bodies, count - 1);
        assert(read.drop_last() =~= front);
        assert(after == after_page(earlier, body));
        assert forall|id: Seq<char>| #[trigger] after.ids.contains(id) <==> state.ids.contains(id)
            || is_listed(read, id) by {
            lemma_contained_in_either(earlier.ids, linked_packs(body), id);
            assert(earlier.ids.contains(id) <==> state.ids.contains(id) || is_listed(front, id));
            if is_listed(front, id) {
                let n = choose|n: int|
                    0 <= n < front.len() && linked_packs(#[trigger] front[n]).contains(id);
                assert(linked_packs(read[n]).contains(id));
            }
            if linked_packs(body).contains(id) {
                assert(linked_packs(read[count - 1]).contains(id));
            }
            if is_listed(read, id) && !linked_packs(body).contains(id) {
                let n = choose|n: int|
                    0 <= n < read.len() && linked_packs(#[trigger] read[n]).contains(id);
                assert(linked_packs(front[n]).contains(id));
            }
        }
    }
}

proof fn lemma_contained_in_either(left: Seq<Seq<char>>, right: Seq<Seq<char>>, id: Seq<char>)
    ensures
        (left + right).contains(id) <==> left.contains(id) || right.contains(id),
{
    let both = left + right;
    if both.contains(id) {
        let i = choose|i: int| 0 <= i < both.len() && both[i] == id;
        if i < left.len() {
            assert(left[i] == id);
        } else {
            assert(right[i - left.len()] == id);
        }
    }
    if left.contains(id) {
        let i = choose|i: int| 0 <= i < left.len() && left[i] == id;
        assert(both[i] == id);
    }
    if right.contains(id) {
        let i = choose|i: int| 0 <= i < right.len() && right[i] == id;
        assert(both[left.len() + i] == id);
    }
}

/// The state after all pages of several kinds of packs were read, one kind after another.
pub open spec fn after_types(state: WalkState, types: Seq<Seq<Seq<char>>>) -> WalkState
    decreases types.len(),
{
    if types.len() == 0 {
        state
    } else {
        after_pages(at_first_page(after_types(state, types.drop_last())), types.last())
    }
}

/// The catalogue is complete: where `types` holds all pages of every kind of packs, the sorted
/// identifiers are strictly increasing, and they are exactly those that some page links to.
pub proof fn law_catalogue_is_complete(types: Seq<Seq<Seq<char>>>, sorted: Seq<Seq<char>>)
    requires
        forall|t: int| 0 <= t < types.len() ==> all_pages(#[trigger] types[t]),
        lists_texts(sorted, after_types(WalkState { ids: seq![], page: None }, types).ids),
    ensures
        forall|i: int, j: int|
            0 <= i < j < sorted.len() ==> text_before(#[trigger] sorted[i], #[trigger] sorted[j]),
        forall|id: Seq<char>| #[trigger]
            sorted.contains(id) <==> exists|t: int|
                0 <= t < types.len() && is_listed(#[trigger] types[t], id),
{
    let found = after_types(WalkState { ids: seq![], page: None }, types).ids;
    lemma_types_are_read(types);
    assert forall|id: Seq<char>| #[trigger] sorted.contains(id) <==> exists|t: int|
        0 <= t < types.len() && is_listed(#[trigger] types[t], id) by {
        assert(sorted.contains(id) <==> found.contains(id));
    }
}

proof fn lemma_types_are_read(types: Seq<Seq<Seq<char>>>)
    requires
        forall|t: int| 0 <= t < types.len() ==> all_pages(#[trigger] types[t]),
    ensures
        forall|id: Seq<char>| #[trigger]
            after_types(WalkState { ids: seq![], page: None }, types).ids.contains(id)
                <==> exists|t: int| 0 <= t < types.len() && is_listed(#[trigger] types[t], id),
    decreases types.len(),
{
    if types.len() > 0 {
        let start = WalkState { ids: seq![], page: None };
        let front = types.drop_last();
        let last = types.last();
        let earlier = after_types(start, front);
        let after = after_types(start, types);
        assert forall|t: int| 0 <= t < front.len() implies all_pages(#[trigger] front[t]) by {
            assert(all_pages(types[t]));
        }
        lemma_types_are_read(front);
        assert(all_pages(types[types.len() - 1]));
        law_all_pages_are_read(earlier, last, last.len() as int);
        assert(last.take(last.len() as int) =~= last);
        assert forall|id: Seq<char>| #[trigger] after.ids.contains(id) <==> exists|t: int|
            0 <= t < types.len() && is_listed(#[trigger] types[t], id) by {
            assert(after.ids.contains(id) <==> earlier.ids.contains(id) || is_listed(last, id));
            if earlier.ids.contains(id) {
                let t = choose|t: int| 0 <= t < front.len() && is_listed(#[trigger] front[t], id);
                assert(is_listed(types[t], id));
            }
            if is_listed(last, id) {
                assert(is_listed(types[types.len() - 1], id));
            }
            if exists|t: int| 0 <= t < types.len() && is_listed(#[trigger] types[t], id) {
                let t = choose|t: int| 0 <= t < types.len() && is_listed(#[trigger] types[t], id);
                if t < front.len() {
                    assert(is_listed(front[t], id));
                }
            }
        }
    }
}

/// Where a page of the catalogue is found.
pub fn catalog_url(pack_type: &str, page: u64) -> (url: String)
    ensures
        url@ == "https://osu.ppy.sh/beatmaps/packs?type="@ + pack_type@ + "&page="@
            + crate::text::decimal(page as nat),
{
    let mut text: Vec<char> = chars_of("https://osu.ppy.sh/beatmaps/packs?type=");
    push_text(&mut text, pack_type);
    push_text(&mut text, "&page=");
    push_decimal(&mut text, page);
    string_of(text.as_slice())
}

/// Whether `left` comes before `right` in the order of character codes.
pub open spec fn text_before(left: Seq<char>, right: Seq<char>) -> bool {
    crate::sorting::lex_le(crate::sorting::text_key(left), crate::sorting::text_key(right)) && left
        != right
}

/// Whether `sorted` lists the members of `ids`, each once, in increasing order.
pub open spec fn lists_texts(sorted: Seq<Seq<char>>, ids: Seq<Seq<char>>) -> bool {
    &&& forall|i: int, j: int|
        0 <= i < j < sorted.len() ==> text_before(#[trigger] sorted[i], #[trigger] sorted[j])
    &&& forall|id: Seq<char>| #[trigger] sorted.contains(id) <==> ids.contains(id)
}

/// The identifiers in increasing order, without repetitions.
pub fn sorted_ids(ids: &Vec<String>) -> (sorted: Vec<String>)
    ensures
        lists_texts(texts_of(sorted@), texts_of(ids@)),
{
    let order: Vec<usize> = order_of(ids);
    let ghost keys = crate::sorting::keys_of(ids@);
    let ghost stable = crate::sorting::stable_order(keys);
    let ghost texts = texts_of(ids@);
    proof {
        crate::sorting::lemma_stable_order(keys);
    }
    let mut sorted: Vec<String> = Vec::new();
    let mut i: usize = 0;
    while i < order.len()
        invariant
            i <= order@.len(),
            order@.len() == ids@.len(),
            texts == texts_of(ids@),
            keys == crate::sorting::keys_of(ids@),
            stable == crate::sorting::positions(order@),
            crate::sorting::is_stable_order(keys, stable),
            forall|k: int| 0 <= k < order@.len() ==> #[trigger] order@[k] < ids@.len(),
            forall|a: int, b: int|
                0 <= a < b < sorted@.len() ==> text_before(
                    (#[trigger] sorted@[a])@,
                    (#[trigger] sorted@[b])@,
                ),
            forall|a: int| 0 <= a < sorted@.len() ==> texts.contains((#[trigger] sorted@[a])@),
            i == 0 ==> sorted@.len() == 0,
            i > 0 ==> sorted@.len() > 0 && sorted@.last()@ == texts[stable[i - 1]],
            forall|k: int|
                0 <= k < i ==> texts_of(sorted@).contains(texts[#[trigger] stable[k]]),
        decreases order@.len() - i,
    {
        let next: &String = &ids[order[i]];
        let ghost before = sorted@;
        proof {
            assert(stable[i as int] == order@[i as int]);
            assert(texts[stable[i as int]] == next@);
            assert(texts.contains(next@));
            if i > 0 {
                assert(crate::sorting::comes_before(keys, stable[i - 1], stable[i as int]));
            }
        }
        let repeated: bool = i > 0 && sorted[sorted.len() - 1] == *next;
        if !repeated {
            proof {
                assert forall|a: int| 0 <= a < sorted@.len() implies text_before(
                    (#[trigger] sorted@[a])@,
                    next@,
                ) by {
                    lemma_before_last(sorted@, a, next@);
                }
            }
            sorted.push(next.clone());
        }
        proof {
            assert forall|k: int| 0 <= k < i + 1 implies texts_of(sorted@).contains(
                texts[#[trigger] stable[k]],
            ) by {
                if k < i {
                    let p = choose|p: int|
                        0 <= p < texts_of(before).len() && texts_of(before)[p] == texts[stable[k]];
                    assert(texts_of(sorted@)[p] == texts[stable[k]]);
                } else {
                    assert(texts_of(sorted@)[sorted@.len() - 1] == next@);
                }
            }
        }
        i = i + 1;
    }
    proof {
        let result = texts_of(sorted@);
        assert forall|id: Seq<char>| #[trigger] result.contains(id) <==> texts.contains(id) by {
            if result.contains(id) {
                let p = choose|p: int| 0 <= p < result.len() && result[p] == id;
                assert(texts.contains(sorted@[p]@));
            }
            if texts.contains(id) {
                let r = choose|r: int| 0 <= r < texts.len() && texts[r] == id;
                assert(stable.contains(r));
                let k = choose|k: int| 0 <= k < stable.len() && stable[k] == r;
                assert(result.contains(texts[stable[k]]));
            }
        }
    }
    sorted
}

/// What stands before the last of a sorted list stands before whatever follows the last.
proof fn lemma_before_last(sorted: Seq<String>, a: int, next: Seq<char>)
    requires
        0 <= a < sorted.len(),
        forall|i: int, j: int|
            0 <= i < j < sorted.len() ==> text_before(
                (#[trigger] sorted[i])@,
                (#[trigger] sorted[j])@,
            ),
        text_before(sorted.last()@, next),
    ensures
        text_before(sorted[a]@, next),
{
    if a < sorted.len() - 1 {
        let x = sorted[a]@;
        let y = sorted.last()@;
        assert(text_before(sorted[a]@, sorted[sorted.len() - 1]@));
        let kx = crate::sorting::text_key(x);
        let ky = crate::sorting::text_key(y);
        let kn = crate::sorting::text_key(next);
        crate::sorting::lemma_lex_transitive(kx, ky, kn);
        if x == next {
            crate::sorting::lemma_lex_antisymmetric(kx, ky);
            assert forall|i: int| 0 <= i < x.len() implies x[i] == y[i] by {
                assert(kx[i] == ky[i]);
            }
            assert(x =~= y);
        }
    }
}

/// The members of `ids` that are osu!standard packs, in order.
pub open spec fn standard_only(ids: Seq<Seq<char>>) -> Seq<Seq<char>>
    decreases ids.len(),
{
    if ids.len() == 0 {
        seq![]
    } else if is_standard_pack(ids.last()) {
        standard_only(ids.drop_last()).push(ids.last())
    } else {
        standard_only(ids.drop_last())
    }
}

/// The identifiers of the osu!standard packs among `ids`, in order.
pub fn standard_ids(ids: &Vec<String>) -> (standard: Vec<String>)
    ensures
        texts_of(standard@) == standard_only(texts_of(ids@)),
{
    let ghost all = texts_of(ids@);
    let mut standard: Vec<String> = Vec::new();
    let mut i: usize = 0;
    assert(all.take(0) =~= seq![]);
    assert(texts_of(standard@) =~= seq![]);
    while i < ids.len()
        invariant
            i <= ids@.len(),
            all == texts_of(ids@),
            texts_of(standard@) == standard_only(all.take(i as int)),
        decreases ids@.len() - i,
    {
        let ghost before = standard@;
        assert(all.take(i + 1).drop_last() =~= all.take(i as int));
        assert(all.take(i + 1).last() == ids@[i as int]@);
        if is_standard_pack_id(ids[i].as_str()) {
            standard.push(ids[i].clone());
            assert(texts_of(standard@) =~= texts_of(before).push(ids@[i as int]@));
        }
        i = i + 1;
    }
    assert(all.take(all.len() as int) =~= all);
    standard
}

// What the catalogue gives

/// Which packs are known by their identifiers: an `S` and digits is a pack of osu!standard, an `S`,
/// one of `T`, `M` and `C`, and digits is one of another mode. At least one digit is asked for.
pub proof fn law_pack_identifiers(id: Seq<char>)
    ensures
        is_standard_pack(id) <==> id.len() >= 2 && id[0] == 'S' && forall|i: int|
            1 <= i < id.len() ==> 48 <= (#[trigger] id[i]) as int <= 57,
        is_nonstandard_pack(id) <==> id.len() >= 3 && id[0] == 'S' && (id[1] == 'T' || id[1] == 'M'
            || id[1] == 'C') && forall|i: int|
            2 <= i < id.len() ==> 48 <= (#[trigger] id[i]) as int <= 57,
{
    reveal_strlit("S");
    reveal_strlit("ST");
    reveal_strlit("SM");
    reveal_strlit("SC");
    crate::text::law_prefixes_and_suffixes(id, "S"@);
    crate::text::law_prefixes_and_suffixes(id, "ST"@);
    crate::text::law_prefixes_and_suffixes(id, "SM"@);
    crate::text::law_prefixes_and_suffixes(id, "SC"@);
    assert("S"@[0] == 'S');
    assert("ST"@[0] == 'S' && "ST"@[1] == 'T');
    assert("SM"@[0] == 'S' && "SM"@[1] == 'M');
    assert("SC"@[0] == 'S' && "SC"@[1] == 'C');
}

/// Only packs of osu!standard are kept, all of them and in order.
pub proof fn law_standard_packs_are_kept(ids: Seq<Seq<char>>)
    ensures
        standard_only(ids) == ids.filter(|id: Seq<char>| is_standard_pack(id)),
    decreases ids.len(),
{
    reveal(Seq::filter);
    if ids.len() > 0 {
        law_standard_packs_are_kept(ids.drop_last());
    }
}

proof fn lemma_leading_name(name: Seq<char>, rest: Seq<char>)
    requires
        forall|i: int|
            0 <= i < name.len() ==> is_ascii_digit(#[trigger] name[i]) || is_ascii_letter(name[i]),
        rest.len() == 0 || !(is_ascii_digit(rest[0]) || is_ascii_letter(rest[0])),
    ensures
        leading_name(name + rest) == name,
    decreases name.len(),
{
    let text = name + rest;
    if name.len() > 0 {
        let tail = name.drop_first();
        assert(text.drop_first() =~= tail + rest);
        assert forall|i: int| 0 <= i < tail.len() implies is_ascii_digit(#[trigger] tail[i])
            || is_ascii_letter(tail[i]) by {
            assert(tail[i] == name[i + 1]);
        }
        lemma_leading_name(tail, rest);
        assert(text[0] == name[0]);
        assert(seq![text[0]] + tail =~= name);
    } else {
        assert(text =~= rest);
    }
}

/// Which packs a page links to: behind each link to a pack stands its identifier, that is all
/// letters and digits up to the next other character. It counts if it starts with a letter and has
/// at least two characters. What follows the link is read in the same way, and a page without such
/// a link links to none.
pub proof fn law_linked_packs(before: Seq<char>, name: Seq<char>, rest: Seq<char>)
    requires
        forall|i: int|
            0 <= i < name.len() ==> 48 <= (#[trigger] name[i]) as int <= 57 || 65 <= name[i] as int
                <= 90 || 97 <= name[i] as int <= 122,
        rest.len() == 0 || !(48 <= rest[0] as int <= 57 || 65 <= rest[0] as int <= 90 || 97
            <= rest[0] as int <= 122),
        forall|p: int|
            0 <= p < before.len() ==> !#[trigger] crate::text::occurs_at(
                before + "/beatmaps/packs/"@ + (name + rest),
                "/beatmaps/packs/"@,
                p,
            ),
    ensures
        linked_packs(before + "/beatmaps/packs/"@ + (name + rest)) == (if name.len() >= 2 && !(48
            <= name[0] as int <= 57) {
            seq![name]
        } else {
            Seq::<Seq<char>>::empty()
        }) + linked_packs(name + rest),
        (forall|p: int|
            0 <= p <= rest.len() ==> !#[trigger] crate::text::occurs_at(
                rest,
                "/beatmaps/packs/"@,
                p,
            )) ==> linked_packs(rest).len() == 0,
{
    reveal_strlit("/beatmaps/packs/");
    let marker = "/beatmaps/packs/"@;
    let body = before + marker + (name + rest);
    crate::text::lemma_find_from_is_first(body, marker, 0);
    crate::text::lemma_find_from_is_first(rest, marker, 0);
    assert(body.subrange(before.len() as int, before.len() as int + marker.len()) =~= marker);
    assert(crate::text::occurs_at(body, marker, before.len() as int));
    if let Some(at) = crate::text::find(body, marker) {
        if at < before.len() {
            assert(!crate::text::occurs_at(body, marker, at));
        }
    }
    assert(crate::text::find(body, marker) == Some(before.len() as int));
    assert(body.skip(before.len() as int + 16) =~= name + rest);
    lemma_leading_name(name, rest);
    let tail = linked_packs(name + rest);
    if !(name.len() >= 2 && !(48 <= name[0] as int <= 57)) {
        assert(Seq::<Seq<char>>::empty() + tail =~= tail);
    }
}

/// A page has a next one if it shows the quick link of the pager, and is followed if it also links
/// to a pack.
pub proof fn law_followed_pages(body: Seq<char>)
    ensures
        has_next_page(body) <==> exists|at: int|
            0 <= at && at + "pagination-v2__link pagination-v2__link--quick"@.len() <= body.len()
                && #[trigger] body.subrange(
                at,
                at + "pagination-v2__link pagination-v2__link--quick"@.len(),
            ) == "pagination-v2__link pagination-v2__link--quick"@,
        is_followed(body) <==> has_next_page(body) && linked_packs(body).len() > 0,
{
    let marker = "pagination-v2__link pagination-v2__link--quick"@;
    crate::text::lemma_find_from_is_first(body, marker, 0);
    if let Some(at) = crate::text::find(body, marker) {
        assert(crate::text::occurs_at(body, marker, at));
        assert(body.subrange(at, at + marker.len()) == marker);
    }
    if exists|at: int|
        0 <= at && at + marker.len() <= body.len() && #[trigger] body.subrange(
            at,
            at + marker.len(),
        ) == marker {
        let at = choose|at: int|
            0 <= at && at + marker.len() <= body.len() && #[trigger] body.subrange(
                at,
                at + marker.len(),
            ) == marker;
        assert(crate::text::occurs_at(body, marker, at));
    }
}

/// Reading a page adds the packs that it links to behind those that were found before, and goes on
/// to the next page exactly if the page is followed; a type starts at its first page and keeps
/// what was found.
pub proof fn law_reading_pages(state: WalkState, body: Seq<char>)
    ensures
        after_page(state, body).ids == state.ids + linked_packs(body),
        state.page is Some && linked_packs(body).len() > 0 && has_next_page(body) ==> after_page(
            state,
            body,
        ).page == Some(state.page->Some_0 + 1),
        state.page is None || linked_packs(body).len() == 0 || !has_next_page(body) ==> after_page(
            state,
            body,
        ).page is None,
        at_first_page(state).ids == state.ids,
        at_first_page(state).page == Some(1int),
{
}

/// Texts are sorted by their first different character, and a text comes before every longer one
/// that starts with it.
pub proof fn law_texts_are_sorted_by_character(left: Seq<char>, right: Seq<char>, k: int)
    requires
        0 <= k <= left.len(),
        k <= right.len(),
        forall|i: int| 0 <= i < k ==> #[trigger] left[i] == right[i],
        k < left.len() && k < right.len() ==> left[k] != right[k],
    ensures
        text_before(left, right) <==> (k == left.len() && k < right.len()) || (k < left.len() && k
            < right.len() && (left[k] as int) < right[k] as int),
{
    let a = crate::sorting::text_key(left);
    let b = crate::sorting::text_key(right);
    assert forall|i: int| 0 <= i < k implies #[trigger] a[i] == b[i] by {
        assert(left[i] == right[i]);
    }
    crate::sorting::law_keys_are_ordered_by_their_first_difference(a, b, k);
    if k == left.len() && k == right.len() {
        assert(left =~= right);
    }
}

} // verus!
