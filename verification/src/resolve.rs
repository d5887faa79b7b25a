//! Choosing one shared item from the user's selector (`tapeer get [target]`).
//!
//! The selector is, in this order of precedence: absent or `latest` (the most recent item,
//! at position 0); a list number `1..=N`; a prefix of an item id; a case-insensitive part of
//! a file name that only one item has.
use vstd::prelude::*;
use crate::models::SharedItem;
use crate::text::{
    chars_of, contains_chars, decimal, has_prefix, has_substring, is_digit, lemma_decimal_digits,
    lemma_parse_usize_decimal, lemma_trim_idempotent, lemma_trim_unchanged, parse_usize,
    parse_usize_text, push_decimal, same_chars, starts_with_chars, trim, trim_text,
    unicode_lowercase,
};

verus! {

/// Why no item could be chosen.
#[derive(Debug, Clone)]
pub enum ResolveError {
    /// The list of shared items is empty.
    NoItems,
    /// The selector is a number outside `1..=available`.
    IndexOutOfRange { index: usize, available: usize },
    /// Several file names contain the (trimmed) selector.
    Ambiguous { count: usize, query: String },
    /// Nothing matches the (trimmed) selector.
    NotFound { query: String },
}

/// The outcome of a selection, over mathematical values.
pub enum Resolution {
    /// The item at this position of the list.
    Selected(int),
    NoItems,
    IndexOutOfRange(nat, nat),
    Ambiguous(nat, Seq<char>),
    NotFound(Seq<char>),
}

/// The selector as text, where one was given.
pub open spec fn target_view(target: Option<&str>) -> Option<Seq<char>> {
    match target {
        Some(t) => Some(t@),
        None => None,
    }
}

/// Item `i` is the first whose id starts with `q`.
pub open spec fn is_first_id_match(items: Seq<SharedItem>, q: Seq<char>, i: int) -> bool {
    &&& 0 <= i < items.len()
    &&& has_prefix(items[i].id@, q)
    &&& forall|j: int| 0 <= j < i ==> !has_prefix(#[trigger] items[j].id@, q)
}

/// The lowercase file name of `item` contains `lower_query`.
pub open spec fn name_matches(item: SharedItem, lower_query: Seq<char>) -> bool {
    has_substring(unicode_lowercase(item.original_name@), lower_query)
}

/// The positions, in increasing order, of the items whose lowercase file name contains
/// `lower_query`.
pub open spec fn name_match_positions(items: Seq<SharedItem>, lower_query: Seq<char>) -> Seq<int>
    decreases items.len(),
{
    if items.len() == 0 {
        Seq::empty()
    } else {
        let rest = name_match_positions(items.drop_last(), lower_query);
        if name_matches(items.last(), lower_query) {
            rest.push(items.len() - 1)
        } else {
            rest
        }
    }
}

/// The selection for a trimmed selector `q` that is not `latest`, on a non-empty list.
pub open spec fn resolve_query(items: Seq<SharedItem>, q: Seq<char>) -> Resolution {
    match parse_usize(q) {
        Some(n) => if 1 <= n <= items.len() {
            Resolution::Selected(n - 1)
        } else {
            Resolution::IndexOutOfRange(n, items.len())
        },
        None => if exists|i: int| is_first_id_match(items, q, i) {
            Resolution::Selected(choose|i: int| is_first_id_match(items, q, i))
        } else {
            let m = name_match_positions(items, unicode_lowercase(q));
            if m.len() == 1 {
                Resolution::Selected(m[0])
            } else if m.len() > 1 {
                Resolution::Ambiguous(m.len(), q)
            } else {
                Resolution::NotFound(q)
            }
        },
    }
}

/// The item that `tapeer get [target]` chooses from `items`, or why none is chosen.
pub open spec fn resolution(items: Seq<SharedItem>, target: Option<Seq<char>>) -> Resolution {
    if items.len() == 0 {
        Resolution::NoItems
    } else {
        match target {
            None => Resolution::Selected(0),
            Some(t) => if t == "latest"@ {
                Resolution::Selected(0)
            } else {
                resolve_query(items, trim(t))
            },
        }
    }
}

/// The result `res` of choosing from `items` is the one that `outcome` describes.
pub open spec fn result_matches<'a>(
    items: Seq<SharedItem>,
    outcome: Resolution,
    res: Result<&'a SharedItem, ResolveError>,
) -> bool {
    match outcome {
        Resolution::Selected(k) => {
            &&& 0 <= k < items.len()
            &&& res matches Ok(r) && *r == items[k]
        },
        Resolution::NoItems => res matches Err(ResolveError::NoItems),
        Resolution::IndexOutOfRange(n, len) => res matches Err(
            ResolveError::IndexOutOfRange { index, available },
        ) && index == n && available == len,
        Resolution::Ambiguous(c, q) => res matches Err(ResolveError::Ambiguous { count, query })
            && count == c && query@ == q,
        Resolution::NotFound(q) => res matches Err(ResolveError::NotFound { query }) && query@
            == q,
    }
}

/// The positions of name matches lie in the list.
proof fn lemma_name_match_positions_in_range(items: Seq<SharedItem>, lq: Seq<char>)
    ensures
        forall|k: int|
            0 <= k < name_match_positions(items, lq).len() ==> 0 <= #[trigger] name_match_positions(
                items,
                lq,
            )[k] < items.len(),
    decreases items.len(),
{
    if items.len() > 0 {
        lemma_name_match_positions_in_range(items.drop_last(), lq);
        let rest = name_match_positions(items.drop_last(), lq);
        let all = name_match_positions(items, lq);
        assert forall|k: int| 0 <= k < all.len() implies 0 <= #[trigger] all[k] < items.len() by {
            if k < rest.len() {
                assert(all[k] == rest[k]);
            }
        }
    }
}

/// At most one position is the first id match.
proof fn lemma_first_id_match_unique(items: Seq<SharedItem>, q: Seq<char>, i: int, j: int)
    requires
        is_first_id_match(items, q, i),
        is_first_id_match(items, q, j),
    ensures
        i == j,
{
    if i < j {
        assert(!has_prefix(items[i].id@, q));
    } else if j < i {
        assert(!has_prefix(items[j].id@, q));
    }
}

/// Position of the first item whose id starts with `q`, if any.
fn find_id_prefix(items: &[SharedItem], q: &Vec<char>) -> (res: Option<usize>)
    ensures
        match res {
            Some(i) => is_first_id_match(items@, q@, i as int),
            None => !exists|i: int| is_first_id_match(items@, q@, i),
        },
{
    let mut i: usize = 0;
    while i < items.len()
        invariant
            i <= items@.len(),
            forall|j: int| 0 <= j < i ==> !has_prefix(#[trigger] items@[j].id@, q@),
        decreases items.len() - i,
    {
        let id = chars_of(items[i].id.as_str());
        if starts_with_chars(&id, q) {
            return Some(i);
        }
        i = i + 1;
    }
    assert forall|k: int| !is_first_id_match(items@, q@, k) by {
        if 0 <= k < items@.len() {
            assert(!has_prefix(items@[k].id@, q@));
        }
    }
    None
}

/// How many file names contain `lower_query`, and the position of the first one.
fn count_name_matches(items: &[SharedItem], lower_query: &Vec<char>) -> (res: (usize, usize))
    ensures
        res.0 == name_match_positions(items@, lower_query@).len(),
        res.0 > 0 ==> res.1 == name_match_positions(items@, lower_query@)[0],
{
    let mut count: usize = 0;
    let mut first: usize = 0;
    let mut i: usize = 0;
    while i < items.len()
        invariant
            i <= items@.len(),
            count <= i,
            count == name_match_positions(items@.take(i as int), lower_query@).len(),
            count > 0 ==> first == name_match_positions(items@.take(i as int), lower_query@)[0],
        decreases items.len() - i,
    {
        let lower_name = items[i].original_name.as_str().to_lowercase();
        let name_chars = chars_of(lower_name.as_str());
        let hit = contains_chars(&name_chars, lower_query);
        let ghost prev = items@.take(i as int);
        let ghost next = items@.take(i + 1);
        assert(next.drop_last() =~= prev);
        assert(next.last() == items@[i as int]);
        if hit {
            if count == 0 {
                first = i;
            }
            count = count + 1;
        }
        i = i + 1;
    }
    assert(items@.take(items@.len() as int) =~= items@);
    (count, first)
}

/// Chooses an item from `items` as `tapeer get [target]` does: the most recent one
/// (position 0) when `target` is absent or `latest`; otherwise, with the selector trimmed, the
/// list number `1..=N`, else the first item whose id starts with it, else the only item whose
/// lowercase file name contains its lowercase form.
pub fn resolve_index(items: &[SharedItem], target: Option<&str>) -> (res: Result<usize, ResolveError>)
    ensures
        match resolution(items@, target_view(target)) {
            Resolution::Selected(k) => res == Ok::<usize, ResolveError>(k as usize) && 0 <= k
                < items@.len(),
            Resolution::NoItems => res matches Err(ResolveError::NoItems),
            Resolution::IndexOutOfRange(n, len) => res matches Err(
                ResolveError::IndexOutOfRange { index, available },
            ) && index == n && available == len,
            Resolution::Ambiguous(c, q) => res matches Err(
                ResolveError::Ambiguous { count, query },
            ) && count == c && query@ == q,
            Resolution::NotFound(q) => res matches Err(ResolveError::NotFound { query })
                && query@ == q,
        },
{
    if items.len() == 0 {
        return Err(ResolveError::NoItems);
    }
    let t = match target {
        None => {
            return Ok(0);
        },
        Some(t) => t,
    };
    let latest = chars_of("latest");
    let given = chars_of(t);
    if same_chars(&given, &latest) {
        return Ok(0);
    }
    let query = trim_text(t);
    let qv = chars_of(query.as_str());
    match parse_usize_text(&qv) {
        Some(index) => {
            if index >= 1 && index <= items.len() {
                return Ok(index - 1);
            } else {
                return Err(ResolveError::IndexOutOfRange { index, available: items.len() });
            }
        },
        None => {},
    }
    match find_id_prefix(items, &qv) {
        Some(i) => {
            proof {
                let c = choose|k: int| is_first_id_match(items@, qv@, k);
                lemma_first_id_match_unique(items@, qv@, c, i as int);
            }
            return Ok(i);
        },
        None => {},
    }
    let lower_query = query.as_str().to_lowercase();
    let lq = chars_of(lower_query.as_str());
    let (count, first) = count_name_matches(items, &lq);
    proof {
        lemma_name_match_positions_in_range(items@, lq@);
    }
    if count == 1 {
        Ok(first)
    } else if count > 1 {
        Err(ResolveError::Ambiguous { count, query })
    } else {
        Err(ResolveError::NotFound { query })
    }
}

/// The item that `tapeer get [target]` chooses from `items` (see `resolve_index`), or why
/// none is chosen.
pub fn resolve_target<'a>(items: &'a [SharedItem], target: Option<&str>) -> (res: Result<
    &'a SharedItem,
    ResolveError,
>)
    ensures
        result_matches(items@, resolution(items@, target_view(target)), res),
{
    match resolve_index(items, target) {
        Ok(i) => Ok(&items[i]),
        Err(e) => Err(e),
    }
}

impl ResolveError {
    /// The text shown to the user for this error.
    pub open spec fn message_text(&self) -> Seq<char> {
        match self {
            ResolveError::NoItems => "No hay elementos compartidos disponibles en TaPeer."@,
            ResolveError::IndexOutOfRange { index, available } => "Índice '"@ + decimal(
                *index as nat,
            ) + "' fuera de rango. Hay "@ + decimal(*available as nat)
                + " elementos disponibles (1 a "@ + decimal(*available as nat) + ")."@,
            ResolveError::Ambiguous { count, query } => "Hay "@ + decimal(*count as nat)
                + " elementos que coinciden con '"@ + query@
                + "'. Sé más específico o usa el número de índice."@,
            ResolveError::NotFound { query } => "No se encontró ningún elemento que coincida con '"@
                + query@ + "'."@,
        }
    }

    /// The text shown to the user for this error (see `message_text`).
    pub fn message(&self) -> (text: String)
        ensures
            text@ == self.message_text(),
    {
        match self {
            ResolveError::NoItems => String::from_str(
                "No hay elementos compartidos disponibles en TaPeer.",
            ),
            ResolveError::IndexOutOfRange { index, available } => {
                let mut text = String::from_str("Índice '");
                push_decimal(&mut text, *index as u64);
                text.append("' fuera de rango. Hay ");
                push_decimal(&mut text, *available as u64);
                text.append(" elementos disponibles (1 a ");
                push_decimal(&mut text, *available as u64);
                text.append(").");
                text
            },
            ResolveError::Ambiguous { count, query } => {
                let mut text = String::from_str("Hay ");
                push_decimal(&mut text, *count as u64);
                text.append(" elementos que coinciden con '");
                text.append(query.as_str());
                text.append("'. Sé más específico o usa el número de índice.");
                text
            },
            ResolveError::NotFound { query } => {
                let mut text = String::from_str(
                    "No se encontró ningún elemento que coincida con '",
                );
                text.append(query.as_str());
                text.append("'.");
                text
            },
        }
    }
}

/// Without a selector, and with the selector `latest`, the most recent item (position 0)
/// is chosen.
pub proof fn lemma_latest_is_default(items: Seq<SharedItem>)
    requires
        items.len() > 0,
    ensures
        resolution(items, None) == Resolution::Selected(0),
        resolution(items, Some("latest"@)) == Resolution::Selected(0),
{
}

/// The number that the list shows for an item, typed as the selector, chooses that item.
pub proof fn lemma_list_number_selects_item(items: Seq<SharedItem>, i: int)
    requires
        0 <= i < items.len(),
        items.len() <= usize::MAX,
    ensures
        resolution(items, Some(decimal((i + 1) as nat))) == Resolution::Selected(i),
{
    let n = (i + 1) as nat;
    let d = decimal(n);
    lemma_decimal_digits(n);
    lemma_parse_usize_decimal(n);
    lemma_trim_unchanged(d);
    reveal_strlit("latest");
    assert(is_digit(d[0]));
    assert(d != "latest"@) by {
        if d == "latest"@ {
            assert(d[0] == 'l');
        }
    }
}

/// White space around a selector does not change the choice (unless the selector, before
/// or after trimming, is `latest`, which only counts untrimmed).
pub proof fn lemma_surrounding_white_space_ignored(items: Seq<SharedItem>, t: Seq<char>)
    requires
        t != "latest"@,
        trim(t) != "latest"@,
    ensures
        resolution(items, Some(t)) == resolution(items, Some(trim(t))),
{
    lemma_trim_idempotent(t);
}

/// A full item id chooses its item, when ids are distinct and all of one length (as UUIDs
/// are), the id is not a number, not `latest`, and has no surrounding white space.
pub proof fn lemma_full_id_selects_item(items: Seq<SharedItem>, k: int)
    requires
        0 <= k < items.len(),
        forall|i: int, j: int|
            0 <= i < items.len() && 0 <= j < items.len() && i != j ==> #[trigger] items[i].id@
                != #[trigger] items[j].id@,
        forall|i: int| 0 <= i < items.len() ==> #[trigger] items[i].id@.len() == items[k].id@.len(),
        parse_usize(items[k].id@) is None,
        items[k].id@ != "latest"@,
        trim(items[k].id@) == items[k].id@,
    ensures
        resolution(items, Some(items[k].id@)) == Resolution::Selected(k),
{
    let q = items[k].id@;
    assert(q.subrange(0, q.len() as int) =~= q);
    assert forall|j: int| 0 <= j < k implies !has_prefix(#[trigger] items[j].id@, q) by {
        if has_prefix(items[j].id@, q) {
            assert(items[j].id@.subrange(0, q.len() as int) =~= items[j].id@);
        }
    }
    assert(is_first_id_match(items, q, k));
    let c = choose|i: int| is_first_id_match(items, q, i);
    lemma_first_id_match_unique(items, q, c, k);
}

/// Some item's id starts with `q` and an earlier item's id starting with `q` is first.
proof fn lemma_first_id_match_exists(items: Seq<SharedItem>, q: Seq<char>, i: int)
    requires
        0 <= i < items.len(),
        has_prefix(items[i].id@, q),
    ensures
        exists|k: int| is_first_id_match(items, q, k),
    decreases i,
{
    if exists|j: int| 0 <= j < i && has_prefix(#[trigger] items[j].id@, q) {
        let j = choose|j: int| 0 <= j < i && has_prefix(#[trigger] items[j].id@, q);
        lemma_first_id_match_exists(items, q, j);
    } else {
        assert(is_first_id_match(items, q, i));
    }
}

/// The positions of name matches are exactly the items whose lowercase file name contains
/// the lowercase selector, each once, in increasing order.
proof fn lemma_name_match_positions_exact(items: Seq<SharedItem>, lq: Seq<char>)
    ensures
        forall|x: int|
            #[trigger] name_match_positions(items, lq).contains(x) <==> (0 <= x < items.len()
                && has_substring(unicode_lowercase(items[x].original_name@), lq)),
        forall|a: int, b: int|
            0 <= a < b < name_match_positions(items, lq).len() ==> #[trigger] name_match_positions(
                items,
                lq,
            )[a] < #[trigger] name_match_positions(items, lq)[b],
    decreases items.len(),
{
    if items.len() > 0 {
        let init = items.drop_last();
        lemma_name_match_positions_exact(init, lq);
        lemma_name_match_positions_in_range(init, lq);
        let rest = name_match_positions(init, lq);
        let all = name_match_positions(items, lq);
        assert forall|x: int| #[trigger] all.contains(x) <==> (0 <= x < items.len()
            && has_substring(unicode_lowercase(items[x].original_name@), lq)) by {
            if 0 <= x < items.len() - 1 {
                assert(init[x] == items[x]);
            }
            if rest.contains(x) {
                let k = choose|k: int| 0 <= k < rest.len() && rest[k] == x;
                assert(0 <= rest[k] < init.len());
            }
            if all.contains(x) && !rest.contains(x) {
                let k = choose|k: int| 0 <= k < all.len() && all[k] == x;
                if k < rest.len() {
                    assert(all[k] == rest[k]);
                }
            }
            if rest.contains(x) {
                let k = choose|k: int| 0 <= k < rest.len() && rest[k] == x;
                if name_matches(items.last(), lq) {
                    assert(all[k] == rest[k]);
                }
            }
            if x == items.len() - 1 && has_substring(unicode_lowercase(items[x].original_name@), lq) {
                assert(all[all.len() - 1] == x);
            }
        }
        assert forall|a: int, b: int| 0 <= a < b < all.len() implies #[trigger] all[a]
            < #[trigger] all[b] by {
            if b < rest.len() {
                assert(all[a] == rest[a] && all[b] == rest[b]);
            } else {
                assert(all[a] == rest[a]);
                assert(0 <= rest[a] < init.len());
            }
        }
    }
}

/// Without a number or an id prefix, the only item whose lowercase file name contains the
/// lowercase selector is chosen, whatever its id, content or other fields hold.
pub proof fn lemma_unique_name_match_selects_item(items: Seq<SharedItem>, t: Seq<char>, k: int)
    requires
        t != "latest"@,
        parse_usize(trim(t)) is None,
        forall|i: int| 0 <= i < items.len() ==> !has_prefix(#[trigger] items[i].id@, trim(t)),
        0 <= k < items.len(),
        has_substring(unicode_lowercase(items[k].original_name@), unicode_lowercase(trim(t))),
        forall|i: int|
            0 <= i < items.len() && i != k ==> !has_substring(
                unicode_lowercase(#[trigger] items[i].original_name@),
                unicode_lowercase(trim(t)),
            ),
    ensures
        resolution(items, Some(t)) == Resolution::Selected(k),
{
    let q = trim(t);
    let lq = unicode_lowercase(q);
    let m = name_match_positions(items, lq);
    assert(!exists|i: int| is_first_id_match(items, q, i));
    lemma_name_match_positions_exact(items, lq);
    assert(m.contains(k));
    assert forall|a: int| 0 <= a < m.len() implies m[a] == k by {
        assert(m.contains(m[a]));
    }
    if m.len() >= 2 {
        assert(m[0] < m[1]);
    }
    assert(m.len() == 1);
}

/// Without a number or an id prefix, a selector contained in two file names is ambiguous.
pub proof fn lemma_shared_name_match_is_ambiguous(
    items: Seq<SharedItem>,
    t: Seq<char>,
    i: int,
    j: int,
)
    requires
        t != "latest"@,
        parse_usize(trim(t)) is None,
        forall|x: int| 0 <= x < items.len() ==> !has_prefix(#[trigger] items[x].id@, trim(t)),
        0 <= i < items.len(),
        0 <= j < items.len(),
        i != j,
        has_substring(unicode_lowercase(items[i].original_name@), unicode_lowercase(trim(t))),
        has_substring(unicode_lowercase(items[j].original_name@), unicode_lowercase(trim(t))),
    ensures
        resolution(items, Some(t)) matches Resolution::Ambiguous(count, query) && count >= 2
            && query == trim(t),
{
    let q = trim(t);
    let lq = unicode_lowercase(q);
    let m = name_match_positions(items, lq);
    assert(!exists|x: int| is_first_id_match(items, q, x));
    lemma_name_match_positions_exact(items, lq);
    assert(m.contains(i) && m.contains(j));
    if m.len() <= 1 {
        let a = choose|a: int| 0 <= a < m.len() && m[a] == i;
        let b = choose|b: int| 0 <= b < m.len() && m[b] == j;
        assert(a == b);
    }
}

/// Without a number or an id prefix, a selector contained in no file name finds nothing.
pub proof fn lemma_no_name_match_is_not_found(items: Seq<SharedItem>, t: Seq<char>)
    requires
        items.len() > 0,
        t != "latest"@,
        parse_usize(trim(t)) is None,
        forall|x: int| 0 <= x < items.len() ==> !has_prefix(#[trigger] items[x].id@, trim(t)),
        forall|x: int|
            0 <= x < items.len() ==> !has_substring(
                unicode_lowercase(#[trigger] items[x].original_name@),
                unicode_lowercase(trim(t)),
            ),
    ensures
        resolution(items, Some(t)) == Resolution::NotFound(trim(t)),
{
    let q = trim(t);
    let lq = unicode_lowercase(q);
    let m = name_match_positions(items, lq);
    assert(!exists|x: int| is_first_id_match(items, q, x));
    lemma_name_match_positions_exact(items, lq);
    if m.len() > 0 {
        assert(m.contains(m[0]));
    }
}

/// A selector that is not a number and that some id starts with chooses the first item whose
/// id starts with it; an id that only contains it further in is never chosen for it.
pub proof fn lemma_id_prefix_selects_first_match(items: Seq<SharedItem>, t: Seq<char>, i: int)
    requires
        t != "latest"@,
        parse_usize(trim(t)) is None,
        0 <= i < items.len(),
        has_prefix(items[i].id@, trim(t)),
    ensures
        resolution(items, Some(t)) matches Resolution::Selected(k) && 0 <= k <= i && has_prefix(
            items[k].id@,
            trim(t),
        ) && forall|j: int| 0 <= j < k ==> !has_prefix(#[trigger] items[j].id@, trim(t)),
{
    let q = trim(t);
    lemma_first_id_match_exists(items, q, i);
    let k = choose|k: int| is_first_id_match(items, q, k);
    assert(is_first_id_match(items, q, k));
    if k > i {
        assert(!has_prefix(items[i].id@, q));
    }
}

} // verus!
