//! The grammar of the modification tag.
//!
//! The tag text is a run of groups. A group is a canonical base, a strand
//! sign and a modification code, then an optional `.` or `?`, then any number
//! of distance lists; a distance list is any number of `,` and decimal number
//! pairs closed by `;`. Text that starts no group is passed over. Of the
//! distance lists of a group the last one carries its distances.

use vstd::prelude::*;
use crate::fault::DecodeFault;
use crate::offsets::{ints, lemma_ints_push};

verus! {

/// One group of the tag: which base it speaks of, on which strand, which
/// modification, and the distances between the modified occurrences.
#[derive(Clone, Debug, PartialEq, Eq)]
pub struct TagGroup {
    pub modified_base: u8,
    pub strand: char,
    pub modification_type: char,
    pub distances: Vec<i64>,
}

/// The mathematical value of a [`TagGroup`].
pub struct TagGroupModel {
    pub modified_base: u8,
    pub strand: char,
    pub modification_type: char,
    pub distances: Seq<int>,
}

impl View for TagGroup {
    type V = TagGroupModel;

    open spec fn view(&self) -> TagGroupModel {
        TagGroupModel {
            modified_base: self.modified_base,
            strand: self.strand,
            modification_type: self.modification_type,
            distances: ints(self.distances@),
        }
    }
}

/// The models of a sequence of groups, in order.
pub open spec fn group_models(groups: Seq<TagGroup>) -> Seq<TagGroupModel> {
    groups.map_values(|g: TagGroup| g@)
}

/// A decimal digit.
pub open spec fn is_digit(b: u8) -> bool {
    ('0' as u8) <= b <= ('9' as u8)
}

/// A lower-case letter.
pub open spec fn is_lower(b: u8) -> bool {
    ('a' as u8) <= b <= ('z' as u8)
}

/// The canonical bases a group can open with.
pub open spec fn is_base(b: u8) -> bool {
    b == ('A' as u8) || b == ('C' as u8) || b == ('G' as u8) || b == ('T' as u8) || b == ('U' as u8)
        || b == ('N' as u8)
}

/// A strand sign.
pub open spec fn is_strand(b: u8) -> bool {
    b == ('+' as u8) || b == ('-' as u8)
}

/// Membership in one of the two classes a modification code is made of.
pub open spec fn in_class(b: u8, digits: bool) -> bool {
    if digits {
        is_digit(b)
    } else {
        is_lower(b)
    }
}

/// Where the longest run of digits (of lower-case letters, if `digits` is
/// false) that starts at `from` ends.
pub open spec fn run_end(text: Seq<u8>, from: int, digits: bool) -> int
    decreases text.len() - from,
{
    if 0 <= from < text.len() && in_class(text[from], digits) {
        run_end(text, from + 1, digits)
    } else {
        from
    }
}

/// The number that the digits of `text` from `lo` up to `hi` spell.
pub open spec fn decimal(text: Seq<u8>, lo: int, hi: int) -> int
    decreases hi - lo,
{
    if hi <= lo {
        0
    } else {
        decimal(text, lo, hi - 1) * 10 + (text[hi - 1] - ('0' as u8))
    }
}

/// A group opens at `at`: a base, a strand sign and the first character of a
/// modification code.
pub open spec fn group_at(text: Seq<u8>, at: int) -> bool {
    &&& 0 <= at
    &&& at + 2 < text.len()
    &&& is_base(text[at])
    &&& is_strand(text[at + 1])
    &&& (is_lower(text[at + 2]) || is_digit(text[at + 2]))
}

/// Where the modification code of the group at `at` ends: the code is all
/// letters or all digits, as long as it can be.
pub open spec fn code_end(text: Seq<u8>, at: int) -> int {
    run_end(text, at + 2, is_digit(text[at + 2]))
}

/// Where the distance lists of the group at `at` start: behind the code and
/// the `.` or `?` that may follow it.
pub open spec fn lists_start(text: Seq<u8>, at: int) -> int {
    let end = code_end(text, at);
    if 0 <= end < text.len() && (text[end] == ('.' as u8) || text[end] == ('?' as u8)) {
        end + 1
    } else {
        end
    }
}

/// A `,` with a digit behind it stands at `from`.
pub open spec fn item_at(text: Seq<u8>, from: int) -> bool {
    0 <= from && from + 1 < text.len() && text[from] == (',' as u8) && is_digit(text[from + 1])
}

/// Where the `,` and number pairs that start at `from` end.
pub open spec fn items_end(text: Seq<u8>, from: int) -> int
    decreases text.len() - from,
{
    if item_at(text, from) {
        proof {
            lemma_run_end_bounds(text, from + 1, true);
        }
        items_end(text, run_end(text, from + 1, true))
    } else {
        from
    }
}

/// Where the distance list that starts at `from` ends, if one starts there:
/// its pairs must be closed by `;`.
pub open spec fn list_end(text: Seq<u8>, from: int) -> Option<int> {
    let end = items_end(text, from);
    if 0 <= end < text.len() && text[end] == (';' as u8) {
        Some(end + 1)
    } else {
        None
    }
}

/// Where the distance lists that follow one another from `from` on end.
pub open spec fn lists_end(text: Seq<u8>, from: int) -> int
    decreases text.len() - from,
{
    match list_end(text, from) {
        Some(end) => {
            proof {
                lemma_items_end_bounds(text, from);
            }
            lists_end(text, end)
        },
        None => from,
    }
}

/// Where the last of the distance lists that follow one another from `from`
/// on starts; `seen` if there is none.
pub open spec fn last_list(text: Seq<u8>, from: int, seen: Option<int>) -> Option<int>
    decreases text.len() - from,
{
    match list_end(text, from) {
        Some(end) => {
            proof {
                lemma_items_end_bounds(text, from);
            }
            last_list(text, end, Some(from))
        },
        None => seen,
    }
}

/// The numbers of the `,` and number pairs that start at `from`.
pub open spec fn list_values(text: Seq<u8>, from: int) -> Seq<int>
    decreases text.len() - from,
{
    if item_at(text, from) {
        proof {
            lemma_run_end_bounds(text, from + 1, true);
        }
        let end = run_end(text, from + 1, true);
        seq![decimal(text, from + 1, end)] + list_values(text, end)
    } else {
        Seq::empty()
    }
}

/// Where the group that opens at `at` ends.
pub open spec fn group_end(text: Seq<u8>, at: int) -> int {
    lists_end(text, lists_start(text, at))
}

/// The distances of the group that opens at `at`: those of its last distance
/// list, none if it has no list.
pub open spec fn group_distances(text: Seq<u8>, at: int) -> Seq<int> {
    match last_list(text, lists_start(text, at), None) {
        Some(start) => list_values(text, start),
        None => Seq::empty(),
    }
}

/// The group that opens at `at`.
pub open spec fn group_model(text: Seq<u8>, at: int) -> TagGroupModel {
    TagGroupModel {
        modified_base: text[at],
        strand: text[at + 1] as char,
        modification_type: text[at + 2] as char,
        distances: group_distances(text, at),
    }
}

/// The groups of `text` from `from` on: where a group opens it is taken whole
/// and the search goes on behind it, elsewhere one character is passed over.
pub open spec fn tag_groups(text: Seq<u8>, from: int) -> Seq<TagGroupModel>
    decreases text.len() - from,
{
    if from < 0 || from >= text.len() {
        Seq::empty()
    } else if group_at(text, from) {
        proof {
            lemma_group_end_bounds(text, from);
        }
        seq![group_model(text, from)] + tag_groups(text, group_end(text, from))
    } else {
        tag_groups(text, from + 1)
    }
}

/// Every distance of every group fits `i64`.
pub open spec fn distances_fit(groups: Seq<TagGroupModel>) -> bool {
    forall|g: int, k: int|
        0 <= g < groups.len() && 0 <= k < groups[g].distances.len()
            ==> #[trigger] groups[g].distances[k] <= i64::MAX
}

/// A run ends at or behind its start, within the text, and holds only
/// characters of its class.
pub proof fn lemma_run_end_bounds(text: Seq<u8>, from: int, digits: bool)
    requires
        0 <= from <= text.len(),
    ensures
        from <= run_end(text, from, digits) <= text.len(),
        forall|j: int|
            from <= j < run_end(text, from, digits) ==> in_class(#[trigger] text[j], digits),
        run_end(text, from, digits) < text.len() ==> !in_class(
            text[run_end(text, from, digits)],
            digits,
        ),
    decreases text.len() - from,
{
    if from < text.len() && in_class(text[from], digits) {
        lemma_run_end_bounds(text, from + 1, digits);
    }
}

/// The pairs of a distance list end at or behind their start, within the text.
pub proof fn lemma_items_end_bounds(text: Seq<u8>, from: int)
    requires
        0 <= from <= text.len(),
    ensures
        from <= items_end(text, from) <= text.len(),
    decreases text.len() - from,
{
    if item_at(text, from) {
        lemma_run_end_bounds(text, from + 1, true);
        lemma_items_end_bounds(text, run_end(text, from + 1, true));
    }
}

/// Distance lists end at or behind their start, within the text.
pub proof fn lemma_lists_end_bounds(text: Seq<u8>, from: int)
    requires
        0 <= from <= text.len(),
    ensures
        from <= lists_end(text, from) <= text.len(),
    decreases text.len() - from,
{
    lemma_items_end_bounds(text, from);
    match list_end(text, from) {
        Some(end) => {
            lemma_lists_end_bounds(text, end);
        },
        None => {},
    }
}

/// A group is at least three characters long and ends within the text.
pub proof fn lemma_group_end_bounds(text: Seq<u8>, at: int)
    requires
        group_at(text, at),
    ensures
        at + 3 <= code_end(text, at) <= lists_start(text, at) <= group_end(text, at) <= text.len(),
{
    lemma_run_end_bounds(text, at + 2, is_digit(text[at + 2]));
    lemma_lists_end_bounds(text, lists_start(text, at));
}

/// What every group of a tag is like: its base is a canonical base, its
/// strand a sign, its modification a lower-case letter or a digit, and none
/// of its distances is negative.
pub open spec fn well_shaped(group: TagGroupModel) -> bool {
    &&& is_base(group.modified_base)
    &&& (group.strand == '+' || group.strand == '-')
    &&& ('a' <= group.modification_type <= 'z' || '0' <= group.modification_type <= '9')
    &&& forall|k: int| 0 <= k < group.distances.len() ==> 0 <= #[trigger] group.distances[k]
}

/// The numbers of a distance list are not negative.
proof fn lemma_list_values_nonnegative(text: Seq<u8>, from: int)
    requires
        0 <= from <= text.len(),
    ensures
        forall|k: int|
            0 <= k < list_values(text, from).len() ==> 0 <= #[trigger] list_values(text, from)[k],
    decreases text.len() - from,
{
    if item_at(text, from) {
        let end = run_end(text, from + 1, true);
        lemma_run_end_bounds(text, from + 1, true);
        lemma_decimal_nonnegative(text, from + 1, end);
        lemma_list_values_nonnegative(text, end);
        let rest = list_values(text, end);
        assert forall|k: int| 0 <= k < list_values(text, from).len() implies 0
            <= #[trigger] list_values(text, from)[k] by {
            if k > 0 {
                assert(list_values(text, from)[k] == rest[k - 1]);
            }
        }
    }
}

/// Where the last distance list starts lies between the start of the lists
/// and the end of the text.
proof fn lemma_last_list_bounds(text: Seq<u8>, from: int, seen: Option<int>)
    requires
        0 <= from <= text.len(),
        seen matches Some(start) ==> 0 <= start <= from,
    ensures
        last_list(text, from, seen) matches Some(start) ==> 0 <= start <= text.len(),
    decreases text.len() - from,
{
    lemma_items_end_bounds(text, from);
    match list_end(text, from) {
        Some(end) => {
            lemma_last_list_bounds(text, end, Some(from));
        },
        None => {},
    }
}

/// Every group of a tag is well shaped.
pub proof fn lemma_groups_well_shaped(text: Seq<u8>, from: int)
    requires
        0 <= from,
    ensures
        forall|g: int|
            0 <= g < tag_groups(text, from).len() ==> well_shaped(
                #[trigger] tag_groups(text, from)[g],
            ),
    decreases text.len() - from,
{
    if from < text.len() {
        if group_at(text, from) {
            lemma_group_end_bounds(text, from);
            lemma_groups_well_shaped(text, group_end(text, from));
            let start = lists_start(text, from);
            lemma_last_list_bounds(text, start, None);
            match last_list(text, start, None) {
                Some(list) => {
                    lemma_list_values_nonnegative(text, list);
                },
                None => {},
            }
            assert(well_shaped(group_model(text, from)));
            let rest = tag_groups(text, group_end(text, from));
            assert forall|g: int| 0 <= g < tag_groups(text, from).len() implies well_shaped(
                #[trigger] tag_groups(text, from)[g],
            ) by {
                if g > 0 {
                    assert(tag_groups(text, from)[g] == rest[g - 1]);
                } else {
                    assert(tag_groups(text, from)[g] == group_model(text, from));
                }
            }
        } else {
            lemma_groups_well_shaped(text, from + 1);
            assert(tag_groups(text, from) == tag_groups(text, from + 1));
        }
    }
}

/// Whether `b` is a digit or, if `digits` is false, a lower-case letter.
fn byte_in_class(b: u8, digits: bool) -> (r: bool)
    ensures
        r == in_class(b, digits),
{
    if digits {
        ('0' as u8) <= b && b <= ('9' as u8)
    } else {
        ('a' as u8) <= b && b <= ('z' as u8)
    }
}

/// Whether `b` is a canonical base.
fn byte_is_base(b: u8) -> (r: bool)
    ensures
        r == is_base(b),
{
    b == ('A' as u8) || b == ('C' as u8) || b == ('G' as u8) || b == ('T' as u8) || b == ('U' as u8)
        || b == ('N' as u8)
}

/// Whether a group opens at `at`.
fn opens_group(text: &[u8], at: usize) -> (r: bool)
    requires
        at < text.len(),
    ensures
        r == group_at(text@, at as int),
{
    if text.len() - at < 3 {
        return false;
    }
    byte_is_base(text[at]) && (text[at + 1] == ('+' as u8) || text[at + 1] == ('-' as u8)) && (
    byte_in_class(text[at + 2], false) || byte_in_class(text[at + 2], true))
}

/// Walks over the run of digits, or of lower-case letters, that starts at `from`.
fn scan_run(text: &[u8], from: usize, digits: bool) -> (end: usize)
    requires
        from <= text.len(),
    ensures
        end == run_end(text@, from as int, digits),
        from <= end <= text.len(),
{
    let mut end: usize = from;
    while end < text.len() && byte_in_class(text[end], digits)
        invariant
            from <= end <= text.len(),
            run_end(text@, from as int, digits) == run_end(text@, end as int, digits),
        decreases text.len() - end,
    {
        end += 1;
    }
    end
}

/// Whether a `,` with a digit behind it stands at `from`.
fn opens_item(text: &[u8], from: usize) -> (r: bool)
    requires
        from <= text.len(),
    ensures
        r == item_at(text@, from as int),
{
    from < text.len() && text.len() - from > 1 && text[from] == (',' as u8) && byte_in_class(
        text[from + 1],
        true,
    )
}

/// Walks over the `,` and number pairs that start at `from`.
fn scan_items(text: &[u8], from: usize) -> (end: usize)
    requires
        from <= text.len(),
    ensures
        end == items_end(text@, from as int),
        from <= end <= text.len(),
{
    let mut end: usize = from;
    while opens_item(text, end)
        invariant
            from <= end <= text.len(),
            items_end(text@, from as int) == items_end(text@, end as int),
        decreases text.len() - end,
    {
        end = scan_run(text, end + 1, true);
    }
    end
}

/// Walks over the distance lists that follow one another from `from` on and
/// says where the last of them starts and where they end.
fn scan_lists(text: &[u8], from: usize) -> (r: (Option<usize>, usize))
    requires
        from <= text.len(),
    ensures
        r.1 == lists_end(text@, from as int),
        from <= r.1 <= text.len(),
        match r.0 {
            Some(start) => last_list(text@, from as int, None) == Some(start as int) && from
                <= start < r.1,
            None => last_list(text@, from as int, None) is None,
        },
{
    let mut last: Option<usize> = None;
    let mut cur: usize = from;
    loop
        invariant
            from <= cur <= text.len(),
            lists_end(text@, from as int) == lists_end(text@, cur as int),
            match last {
                Some(start) => last_list(text@, from as int, None) == last_list(
                    text@,
                    cur as int,
                    Some(start as int),
                ) && from <= start < cur,
                None => last_list(text@, from as int, None) == last_list(text@, cur as int, None),
            },
        decreases text.len() - cur,
    {
        let end = scan_items(text, cur);
        if end < text.len() && text[end] == (';' as u8) {
            last = Some(cur);
            cur = end + 1;
        } else {
            return (last, cur);
        }
    }
}

/// The number that the digits from `lo` up to `hi` spell, unless it is
/// beyond `i64`.
fn parse_decimal(text: &[u8], lo: usize, hi: usize) -> (r: Option<i64>)
    requires
        lo <= hi <= text.len(),
        forall|j: int| lo <= j < hi ==> is_digit(#[trigger] text@[j]),
    ensures
        match r {
            Some(value) => value == decimal(text@, lo as int, hi as int),
            None => decimal(text@, lo as int, hi as int) > i64::MAX,
        },
{
    let mut value: i64 = 0;
    let mut cur: usize = lo;
    while cur < hi
        invariant
            lo <= cur <= hi <= text.len(),
            forall|j: int| lo <= j < hi ==> is_digit(#[trigger] text@[j]),
            0 <= value == decimal(text@, lo as int, cur as int),
        decreases hi - cur,
    {
        let digit: i64 = (text[cur] - ('0' as u8)) as i64;
        if value > (i64::MAX - digit) / 10 {
            proof {
                lemma_decimal_grows(text@, lo as int, cur as int + 1, hi as int);
            }
            return None;
        }
        value = value * 10 + digit;
        cur += 1;
    }
    Some(value)
}

/// A number is at least the number that fewer of its digits spell.
proof fn lemma_decimal_grows(text: Seq<u8>, lo: int, mid: int, hi: int)
    requires
        lo <= mid <= hi <= text.len(),
        0 <= lo,
        forall|j: int| lo <= j < hi ==> is_digit(#[trigger] text[j]),
    ensures
        0 <= decimal(text, lo, mid) <= decimal(text, lo, hi),
    decreases hi - mid,
{
    lemma_decimal_nonnegative(text, lo, mid);
    if mid < hi {
        lemma_decimal_grows(text, lo, mid, hi - 1);
    }
}

/// Digits spell no negative number.
proof fn lemma_decimal_nonnegative(text: Seq<u8>, lo: int, hi: int)
    requires
        0 <= lo <= hi <= text.len(),
        forall|j: int| lo <= j < hi ==> is_digit(#[trigger] text[j]),
    ensures
        0 <= decimal(text, lo, hi),
    decreases hi - lo,
{
    if lo < hi {
        lemma_decimal_nonnegative(text, lo, hi - 1);
    }
}

/// Whether every number of a distance list fits `i64`.
pub open spec fn values_fit(values: Seq<int>) -> bool {
    forall|k: int| 0 <= k < values.len() ==> #[trigger] values[k] <= i64::MAX
}

/// The numbers of the `,` and number pairs that start at `from`, unless one
/// of them is beyond `i64`.
fn parse_list(text: &[u8], from: usize) -> (r: Option<Vec<i64>>)
    requires
        from <= text.len(),
    ensures
        match r {
            Some(values) => ints(values@) == list_values(text@, from as int),
            None => !values_fit(list_values(text@, from as int)),
        },
{
    let mut values: Vec<i64> = Vec::new();
    let mut cur: usize = from;
    while opens_item(text, cur)
        invariant
            from <= cur <= text.len(),
            list_values(text@, from as int) == ints(values@) + list_values(text@, cur as int),
        decreases text.len() - cur,
    {
        let end = scan_run(text, cur + 1, true);
        proof {
            lemma_run_end_bounds(text@, cur as int + 1, true);
        }
        match parse_decimal(text, cur + 1, end) {
            Some(value) => {
                proof {
                    let before = ints(values@);
                    let rest = list_values(text@, end as int);
                    lemma_ints_push(values@, value);
                    assert(before + (seq![value as int] + rest) =~= before.push(value as int)
                        + rest);
                }
                values.push(value);
                cur = end;
            },
            None => {
                proof {
                    let before = ints(values@);
                    let all = list_values(text@, from as int);
                    assert(all[before.len() as int] == decimal(text@, cur as int + 1, end as int));
                }
                return None;
            },
        }
    }
    proof {
        assert(ints(values@) + Seq::<int>::empty() =~= ints(values@));
    }
    Some(values)
}

/// What is held in `i64` fits `i64`.
proof fn lemma_models_fit(groups: Seq<TagGroup>)
    ensures
        distances_fit(group_models(groups)),
{
    assert forall|g: int, k: int|
        0 <= g < group_models(groups).len() && 0 <= k < group_models(
            groups,
        )[g].distances.len() implies #[trigger] group_models(groups)[g].distances[k]
        <= i64::MAX by {
        assert(group_models(groups)[g].distances[k] == groups[g].distances@[k] as int);
    }
}

/// Reads the groups of a modification tag.
///
/// The groups come in the order of the text, each with the distances of its
/// last distance list; text that starts no group is passed over. The one
/// fault is a distance beyond `i64`: then nothing is returned but the fault.
pub fn decode_tag(text: &[u8]) -> (r: Result<Vec<TagGroup>, DecodeFault>)
    ensures
        match r {
            Ok(groups) => distances_fit(tag_groups(text@, 0)) && group_models(groups@)
                == tag_groups(text@, 0),
            Err(fault) => fault == DecodeFault::Malformed && !distances_fit(
                tag_groups(text@, 0),
            ),
        },
{
    let mut groups: Vec<TagGroup> = Vec::new();
    let mut at: usize = 0;
    while at < text.len()
        invariant
            at <= text.len(),
            tag_groups(text@, 0) == group_models(groups@) + tag_groups(text@, at as int),
        decreases text.len() - at,
    {
        if opens_group(text, at) {
            proof {
                lemma_group_end_bounds(text@, at as int);
            }
            let code_end = scan_run(text, at + 2, byte_in_class(text[at + 2], true));
            let lists_start = if code_end < text.len() && (text[code_end] == ('.' as u8)
                || text[code_end] == ('?' as u8)) {
                code_end + 1
            } else {
                code_end
            };
            let (last, end) = scan_lists(text, lists_start);
            let distances = match last {
                Some(start) => match parse_list(text, start) {
                    Some(values) => values,
                    None => {
                        proof {
                            let all = tag_groups(text@, 0);
                            let values = list_values(text@, start as int);
                            let k = choose|k: int| 0 <= k < values.len() && values[k] > i64::MAX;
                            let g = groups@.len() as int;
                            assert(all[g] == group_model(text@, at as int));
                            assert(all[g].distances[k] > i64::MAX);
                        }
                        return Err(DecodeFault::Malformed);
                    },
                },
                None => Vec::new(),
            };
            let group = TagGroup {
                modified_base: text[at],
                strand: text[at + 1] as char,
                modification_type: text[at + 2] as char,
                distances,
            };
            proof {
                let before = group_models(groups@);
                let rest = tag_groups(text@, end as int);
                assert(group@.distances =~= group_distances(text@, at as int));
                assert(group@ == group_model(text@, at as int));
                assert(group_models(groups@.push(group)) =~= before.push(group@));
                assert(before + (seq![group@] + rest) =~= before.push(group@) + rest);
            }
            groups.push(group);
            at = end;
        } else {
            at += 1;
        }
    }
    proof {
        assert(group_models(groups@) + Seq::<TagGroupModel>::empty() =~= group_models(groups@));
        lemma_models_fit(groups@);
    }
    Ok(groups)
}

} // verus!
