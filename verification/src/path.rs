//! Path patterns such as `items.*.name`: parsing dot-separated components
//! and matching event paths against them.

use vstd::prelude::*;
use crate::long_float::{all_digits, digits_value, is_digit};
use crate::value::{bytes_equal, PathItem};

verus! {

/// One component of a path pattern.
pub enum PatternItem {
    /// Matches an object key with these bytes.
    Key(Vec<u8>),
    /// Matches an array index.
    Index(usize),
    /// `*`: matches any one component.
    Wildcard,
}

/// The content of a pattern component.
pub enum PatternModel {
    Key(Seq<u8>),
    Index(int),
    Wildcard,
}

/// Why a pattern was refused.
#[derive(Clone, Copy, Debug, PartialEq, Eq, Structural)]
pub enum PatternError {
    /// The pattern is empty.
    Empty,
    /// Two dots are adjacent, or a dot starts or ends the pattern.
    EmptyComponent,
}

impl PatternItem {
    /// The content of this component.
    pub open spec fn model(&self) -> PatternModel {
        match self {
            PatternItem::Key(k) => PatternModel::Key(k@),
            PatternItem::Index(i) => PatternModel::Index(*i as int),
            PatternItem::Wildcard => PatternModel::Wildcard,
        }
    }
}

/// The position of the first dot at or after `start`, or the length.
pub open spec fn next_dot(s: Seq<u8>, start: int) -> int
    decreases s.len() - start,
{
    if start >= s.len() {
        s.len() as int
    } else if s[start] == 0x2e {
        start
    } else {
        next_dot(s, start + 1)
    }
}

/// The next dot lies between `start` and the end, with no dot before it.
pub proof fn lemma_next_dot(s: Seq<u8>, start: int)
    requires
        0 <= start <= s.len(),
    ensures
        start <= next_dot(s, start) <= s.len(),
        next_dot(s, start) < s.len() ==> s[next_dot(s, start)] == 0x2e,
        forall|i: int| start <= i < next_dot(s, start) ==> s[i] != 0x2e,
    decreases s.len() - start,
{
    if start < s.len() && s[start] != 0x2e {
        lemma_next_dot(s, start + 1);
    }
}

/// The dot-separated components of `s` from `start` on.
pub open spec fn components_from(s: Seq<u8>, start: int) -> Seq<Seq<u8>>
    decreases s.len() - start,
{
    if start < 0 || start > s.len() {
        Seq::empty()
    } else {
        let d = next_dot(s, start);
        proof {
            lemma_next_dot(s, start);
        }
        if d >= s.len() {
            seq![s.subrange(start, s.len() as int)]
        } else {
            seq![s.subrange(start, d)] + components_from(s, d + 1)
        }
    }
}

/// The dot-separated components of a pattern.
pub open spec fn components(s: Seq<u8>) -> Seq<Seq<u8>> {
    components_from(s, 0)
}

/// What `usize::from_str` gives for a component: an optional `+`, then at
/// least one decimal digit, with a value that fits in `usize`.
pub open spec fn index_value(text: Seq<u8>) -> Option<int> {
    let digits = if text.len() > 0 && text[0] == 0x2b {
        text.skip(1)
    } else {
        text
    };
    if digits.len() > 0 && all_digits(digits) && digits_value(digits) <= usize::MAX {
        Some(digits_value(digits))
    } else {
        None
    }
}

/// The pattern component a piece of text stands for.
pub open spec fn component_model(text: Seq<u8>) -> PatternModel {
    if text == seq![0x2au8] {
        PatternModel::Wildcard
    } else {
        match index_value(text) {
            Some(i) => PatternModel::Index(i),
            None => PatternModel::Key(text),
        }
    }
}

/// The parsed pattern, or why it is refused.
pub open spec fn pattern_model(pattern: Seq<u8>) -> Result<Seq<PatternModel>, PatternError> {
    if pattern.len() == 0 {
        Err(PatternError::Empty)
    } else if exists|i: int| 0 <= i < components(pattern).len() && (#[trigger] components(pattern)[i]).len() == 0 {
        Err(PatternError::EmptyComponent)
    } else {
        Ok(components(pattern).map_values(|c: Seq<u8>| component_model(c)))
    }
}

proof fn lemma_digits_value_nonnegative(digits: Seq<u8>)
    requires
        all_digits(digits),
    ensures
        digits_value(digits) >= 0,
    decreases digits.len(),
{
    if digits.len() > 0 {
        lemma_digits_value_nonnegative(digits.drop_last());
    }
}

proof fn lemma_digits_value_monotonic(digits: Seq<u8>, k: int)
    requires
        all_digits(digits),
        0 <= k <= digits.len(),
    ensures
        digits_value(digits.take(k)) <= digits_value(digits),
    decreases digits.len() - k,
{
    if k < digits.len() {
        let n = digits.len() as int;
        assert(digits.drop_last() =~= digits.take(n - 1));
        assert(digits.take(n - 1).take(k) =~= digits.take(k));
        lemma_digits_value_nonnegative(digits.drop_last());
        lemma_digits_value_monotonic(digits.drop_last(), k);
    } else {
        assert(digits.take(k) =~= digits);
    }
}

/// Read a component as an index the way `usize::from_str` does.
fn parse_index(text: &[u8]) -> (index: Option<usize>)
    ensures
        match index_value(text@) {
            Some(v) => index matches Some(j) && j as int == v,
            None => index is None,
        },
{
    let n = text.len();
    let start: usize = if n > 0 && text[0] == 0x2b {
        1
    } else {
        0
    };
    let ghost digits = text@.skip(start as int);
    proof {
        assert(text@.skip(0) =~= text@);
        assert(digits == (if text@.len() > 0 && text@[0] == 0x2b {
            text@.skip(1)
        } else {
            text@
        }));
        assert(digits.take(0) =~= Seq::<u8>::empty());
    }
    if start == n {
        return None;
    }
    let mut value: usize = 0;
    let mut i: usize = start;
    while i < n
        invariant
            start <= i <= n == text@.len(),
            start < n,
            digits == text@.skip(start as int),
            digits == (if text@.len() > 0 && text@[0] == 0x2b {
                text@.skip(1)
            } else {
                text@
            }),
            all_digits(digits.take(i - start)),
            value == digits_value(digits.take(i - start)),
        decreases n - i,
    {
        let byte = text[i];
        proof {
            assert(digits.take(i - start + 1).drop_last() =~= digits.take(i - start));
            assert(digits[i - start] == byte);
        }
        if !(0x30 <= byte && byte <= 0x39) {
            proof {
                assert(!is_digit(digits[i - start]));
                assert(!all_digits(digits));
            }
            return None;
        }
        let next = match value.checked_mul(10) {
            Some(v) => v.checked_add((byte - 0x30) as usize),
            None => None,
        };
        match next {
            Some(v) => {
                value = v;
            },
            None => {
                proof {
                    assert(all_digits(digits.take(i - start + 1)));
                    lemma_digits_value_nonnegative(digits.take(i - start));
                    assert(digits_value(digits.take(i - start + 1)) > usize::MAX) by (nonlinear_arith)
                        requires
                            digits_value(digits.take(i - start + 1)) == value * 10 + (byte - 0x30),
                            value * 10 > usize::MAX || value * 10 + (byte - 0x30) > usize::MAX,
                            byte >= 0x30,
                    ;
                    if all_digits(digits) {
                        lemma_digits_value_monotonic(digits, i - start + 1);
                    }
                }
                return None;
            },
        }
        i = i + 1;
    }
    proof {
        assert(digits.take(n - start) =~= digits);
    }
    Some(value)
}

proof fn lemma_next_dot_is(s: Seq<u8>, start: int, end: int)
    requires
        0 <= start <= end <= s.len(),
        forall|i: int| start <= i < end ==> s[i] != 0x2e,
        end == s.len() || s[end] == 0x2e,
    ensures
        next_dot(s, start) == end,
    decreases end - start,
{
    if start < end {
        lemma_next_dot_is(s, start + 1, end);
    }
}

/// The contents of parsed components.
pub open spec fn pattern_models(items: Seq<PatternItem>) -> Seq<PatternModel> {
    items.map_values(|p: PatternItem| p.model())
}

/// Parse a dot-separated path pattern: `*` matches any component, a
/// component that `usize::from_str` reads is an index, any other is a key.
pub fn parse_path_pattern(pattern: &[u8]) -> (parsed: Result<Vec<PatternItem>, PatternError>)
    ensures
        match pattern_model(pattern@) {
            Ok(items) => parsed matches Ok(p) && pattern_models(p@) == items,
            Err(e) => parsed == Err::<Vec<PatternItem>, PatternError>(e),
        },
{
    let n = pattern.len();
    if n == 0 {
        return Err(PatternError::Empty);
    }
    let ghost s = pattern@;
    let mut items: Vec<PatternItem> = Vec::new();
    let ghost mut done: Seq<Seq<u8>> = Seq::empty();
    let mut start: usize = 0;
    loop
        invariant
            n == s.len() > 0,
            s == pattern@,
            start <= n,
            components(s) == done + components_from(s, start as int),
            forall|i: int| 0 <= i < done.len() ==> (#[trigger] done[i]).len() > 0,
            pattern_models(items@) == done.map_values(|c: Seq<u8>| component_model(c)),
        decreases n + 1 - start,
    {
        let mut end: usize = start;
        while end < n && pattern[end] != 0x2e
            invariant
                start <= end <= n == pattern@.len(),
                forall|i: int| start <= i < end ==> pattern@[i] != 0x2e,
            decreases n - end,
        {
            end = end + 1;
        }
        proof {
            lemma_next_dot_is(s, start as int, end as int);
        }
        let ghost part = s.subrange(start as int, end as int);
        let ghost rest = components_from(s, start as int);
        proof {
            assert(rest[0] == part);
        }
        if end == start {
            proof {
                let k = done.len() as int;
                assert(components(s)[k] == part);
                assert(part.len() == 0);
            }
            return Err(PatternError::EmptyComponent);
        }
        let text = vstd::slice::slice_subrange(pattern, start, end);
        let item = if end - start == 1 && pattern[start] == 0x2a {
            proof {
                assert(part =~= seq![0x2au8]);
            }
            PatternItem::Wildcard
        } else {
            proof {
                if part == seq![0x2au8] {
                    assert(part[0] == pattern@[start as int]);
                }
            }
            match parse_index(text) {
                Some(index) => PatternItem::Index(index),
                None => PatternItem::Key(vstd::slice::slice_to_vec(text)),
            }
        };
        proof {
            assert(item.model() == component_model(part));
        }
        let ghost before = items@;
        items.push(item);
        proof {
            assert(pattern_models(items@) =~= pattern_models(before).push(item.model()));
            assert(done.push(part).map_values(|c: Seq<u8>| component_model(c)) =~= done.map_values(
                |c: Seq<u8>| component_model(c),
            ).push(component_model(part)));
        }
        if end == n {
            proof {
                assert(rest =~= seq![part]);
                done = done.push(part);
                assert(components(s) =~= done);
                assert forall|i: int| 0 <= i < components(s).len() implies (
                #[trigger] components(s)[i]).len() > 0 by {
                    assert(components(s)[i] == done[i]);
                }
            }
            return Ok(items);
        }
        proof {
            assert(rest =~= seq![part] + components_from(s, end + 1));
            done = done.push(part);
            assert(components(s) =~= done + components_from(s, end + 1));
        }
        start = end + 1;
    }
}

/// Whether one path step matches one pattern component.
pub open spec fn item_matches(item: PathItem, pattern: PatternModel) -> bool {
    match (item, pattern) {
        (_, PatternModel::Wildcard) => true,
        (PathItem::Key(k), PatternModel::Key(p)) => k@ == p,
        (PathItem::Index(i), PatternModel::Index(j)) => i == j,
        _ => false,
    }
}

/// Whether a path matches a pattern component by component.
pub open spec fn path_matches(path: Seq<PathItem>, pattern: Seq<PatternModel>) -> bool {
    path.len() == pattern.len() && forall|i: int| 0 <= i < path.len() ==> #[trigger] item_matches(path[i], pattern[i])
}

/// The pattern component that names exactly this path step.
pub open spec fn exact_component(item: PathItem) -> PatternModel {
    match item {
        PathItem::Key(k) => PatternModel::Key(k@),
        PathItem::Index(i) => PatternModel::Index(i as int),
    }
}

/// Every path matches the pattern that spells out its own steps.
pub proof fn lemma_path_matches_itself(path: Seq<PathItem>)
    ensures
        path_matches(path, path.map_values(|item: PathItem| exact_component(item))),
{
    let exact = path.map_values(|item: PathItem| exact_component(item));
    assert forall|i: int| 0 <= i < path.len() implies #[trigger] item_matches(path[i], exact[i]) by {
        assert(exact[i] == exact_component(path[i]));
    }
}

/// A wildcard matches any one step, key or index: putting one in place of
/// any component keeps every match.
pub proof fn lemma_wildcard_widens(path: Seq<PathItem>, pattern: Seq<PatternModel>, i: int)
    requires
        path_matches(path, pattern),
        0 <= i < pattern.len(),
    ensures
        path_matches(path, pattern.update(i, PatternModel::Wildcard)),
{
    let widened = pattern.update(i, PatternModel::Wildcard);
    assert forall|j: int| 0 <= j < path.len() implies #[trigger] item_matches(path[j], widened[j]) by {
        if j != i {
            assert(widened[j] == pattern[j]);
            assert(item_matches(path[j], pattern[j]));
        }
    }
}

/// A pattern of wildcards matches every path of its length, whatever keys
/// and indices the path holds.
pub proof fn lemma_wildcards_match_all(path: Seq<PathItem>, pattern: Seq<PatternModel>)
    requires
        path.len() == pattern.len(),
        forall|j: int| 0 <= j < pattern.len() ==> pattern[j] == PatternModel::Wildcard,
    ensures
        path_matches(path, pattern),
{
    assert forall|j: int| 0 <= j < path.len() implies #[trigger] item_matches(path[j], pattern[j]) by {
        assert(pattern[j] == PatternModel::Wildcard);
    }
}

/// Whether a path has the pattern's length and each step matches its component.
pub fn path_matches_pattern(path: &[PathItem], pattern: &[PatternItem]) -> (matched: bool)
    ensures
        matched == path_matches(path@, pattern_models(pattern@)),
{
    if path.len() != pattern.len() {
        return false;
    }
    let mut i: usize = 0;
    while i < path.len()
        invariant
            path@.len() == pattern@.len(),
            i <= path@.len(),
            forall|j: int| 0 <= j < i ==> #[trigger] item_matches(path@[j], pattern_models(pattern@)[j]),
        decreases path@.len() - i,
    {
        let step = match (&path[i], &pattern[i]) {
            (_, PatternItem::Wildcard) => true,
            (PathItem::Key(k), PatternItem::Key(p)) => bytes_equal(k.as_slice(), p.as_slice()),
            (PathItem::Index(a), PatternItem::Index(b)) => *a == *b,
            _ => false,
        };
        proof {
            assert(pattern_models(pattern@)[i as int] == pattern@[i as int].model());
        }
        if !step {
            proof {
                assert(!item_matches(path@[i as int], pattern_models(pattern@)[i as int]));
            }
            return false;
        }
        i = i + 1;
    }
    true
}

/// Whether a path matches any of the patterns.
pub fn path_matches_patterns(path: &[PathItem], patterns: &[Vec<PatternItem>]) -> (matched: bool)
    ensures
        matched == exists|k: int|
            0 <= k < patterns@.len() && path_matches(path@, pattern_models(#[trigger] patterns@[k]@)),
{
    let mut k: usize = 0;
    while k < patterns.len()
        invariant
            k <= patterns@.len(),
            forall|j: int| 0 <= j < k ==> !path_matches(path@, pattern_models(#[trigger] patterns@[j]@)),
        decreases patterns@.len() - k,
    {
        if path_matches_pattern(path, patterns[k].as_slice()) {
            return true;
        }
        k = k + 1;
    }
    false
}

/// Components joined by dots.
pub open spec fn join(parts: Seq<Seq<u8>>) -> Seq<u8>
    decreases parts.len(),
{
    if parts.len() <= 1 {
        if parts.len() == 1 {
            parts[0]
        } else {
            Seq::empty()
        }
    } else {
        parts[0] + seq![0x2eu8] + join(parts.skip(1))
    }
}

/// Each part is nonempty and has no dot.
pub open spec fn plain_parts(parts: Seq<Seq<u8>>) -> bool {
    forall|i: int|
        0 <= i < parts.len() ==> (#[trigger] parts[i]).len() > 0 && forall|j: int|
            0 <= j < parts[i].len() ==> parts[i][j] != 0x2e
}

proof fn lemma_components_of_join(prefix: Seq<u8>, parts: Seq<Seq<u8>>)
    requires
        parts.len() > 0,
        plain_parts(parts),
    ensures
        components_from(prefix + join(parts), prefix.len() as int) == parts,
    decreases parts.len(),
{
    let s = prefix + join(parts);
    let start = prefix.len() as int;
    let first = parts[0];
    let end = start + first.len();
    if parts.len() == 1 {
        assert(s =~= prefix + first);
    } else {
        assert(join(parts) =~= first + seq![0x2eu8] + join(parts.skip(1)));
        assert(s =~= prefix + first + seq![0x2eu8] + join(parts.skip(1)));
    }
    assert forall|i: int| start <= i < end implies s[i] != 0x2e by {
        assert(s[i] == first[i - start]);
    }
    lemma_next_dot_is(s, start, end);
    assert(s.subrange(start, end) =~= first);
    if parts.len() == 1 {
        assert(components_from(s, start) =~= seq![first]);
        assert(parts =~= seq![first]);
    } else {
        let rest = parts.skip(1);
        let longer = prefix + first + seq![0x2eu8];
        assert(s =~= longer + join(rest));
        assert forall|i: int| 0 <= i < rest.len() implies (#[trigger] rest[i]).len() > 0 && forall|j: int|
            0 <= j < rest[i].len() ==> rest[i][j] != 0x2e by {
            assert(rest[i] == parts[i + 1]);
        }
        lemma_components_of_join(longer, rest);
        assert(components_from(s, start) =~= seq![first] + rest);
        assert(parts =~= seq![first] + rest);
    }
}

/// A pattern written as nonempty dot-free components joined by dots parses
/// back into those components.
pub proof fn lemma_parse_joined(parts: Seq<Seq<u8>>)
    requires
        parts.len() > 0,
        plain_parts(parts),
    ensures
        pattern_model(join(parts)) == Ok::<Seq<PatternModel>, PatternError>(
            parts.map_values(|c: Seq<u8>| component_model(c)),
        ),
{
    lemma_components_of_join(Seq::empty(), parts);
    assert(Seq::<u8>::empty() + join(parts) =~= join(parts));
    assert(join(parts).len() > 0) by {
        if parts.len() == 1 {
            assert(join(parts) == parts[0]);
        } else {
            assert(join(parts) =~= parts[0] + seq![0x2eu8] + join(parts.skip(1)));
        }
    }
    assert(!exists|i: int| 0 <= i < components(join(parts)).len() && (#[trigger] components(join(parts))[i]).len() == 0);
}

/// Whether two path steps are the same key or the same index.
pub open spec fn same_step(a: PathItem, b: PathItem) -> bool {
    match (a, b) {
        (PathItem::Key(x), PathItem::Key(y)) => x@ == y@,
        (PathItem::Index(x), PathItem::Index(y)) => x == y,
        _ => false,
    }
}

/// Whether two path steps are the same.
pub fn steps_equal(a: &PathItem, b: &PathItem) -> (equal: bool)
    ensures
        equal == same_step(*a, *b),
{
    match (a, b) {
        (PathItem::Key(x), PathItem::Key(y)) => bytes_equal(x.as_slice(), y.as_slice()),
        (PathItem::Index(x), PathItem::Index(y)) => *x == *y,
        _ => false,
    }
}

/// Whether `items` are the last steps of `path`.
pub open spec fn has_suffix(path: Seq<PathItem>, items: Seq<PathItem>) -> bool {
    items.len() <= path.len() && forall|i: int|
        0 <= i < items.len() ==> #[trigger] same_step(path[path.len() - items.len() + i], items[i])
}

/// Whether a path ends with the given steps.
pub fn ends_with_steps(path: &[PathItem], items: &[PathItem]) -> (found: bool)
    ensures
        found == has_suffix(path@, items@),
{
    if items.len() > path.len() {
        return false;
    }
    let n = path.len();
    let offset = n - items.len();
    let mut i: usize = 0;
    while i < items.len()
        invariant
            n == path@.len(),
            items@.len() <= path@.len(),
            offset == path@.len() - items@.len(),
            i <= items@.len(),
            forall|j: int| 0 <= j < i ==> #[trigger] same_step(path@[offset + j], items@[j]),
        decreases items@.len() - i,
    {
        if !steps_equal(&path[offset + i], &items[i]) {
            proof {
                assert(!same_step(path@[path@.len() - items@.len() + i], items@[i as int]));
            }
            return false;
        }
        i = i + 1;
    }
    true
}

/// Whether a path equals the given steps.
pub fn equals_steps(path: &[PathItem], items: &[PathItem]) -> (equal: bool)
    ensures
        equal == (path@.len() == items@.len() && has_suffix(path@, items@)),
{
    path.len() == items.len() && ends_with_steps(path, items)
}

/// Whether a path's last step is this key.
pub open spec fn ends_in_key(path: Seq<PathItem>, key: Seq<u8>) -> bool {
    path.len() > 0 && match path.last() {
        PathItem::Key(k) => k@ == key,
        PathItem::Index(_) => false,
    }
}

/// Whether a path's last step is this key.
pub fn ends_with_key(path: &[PathItem], key: &[u8]) -> (found: bool)
    ensures
        found == ends_in_key(path@, key@),
{
    if path.len() == 0 {
        return false;
    }
    match &path[path.len() - 1] {
        PathItem::Key(k) => bytes_equal(k.as_slice(), key),
        PathItem::Index(_) => false,
    }
}

/// The position an index names in a path of `len` steps: negative indices
/// count from the end; none outside the path.
pub open spec fn index_position(len: int, index: int) -> Option<int> {
    let position = if index < 0 {
        index + len
    } else {
        index
    };
    if 0 <= position < len {
        Some(position)
    } else {
        None
    }
}

/// Resolve an index into a path of `len` steps.
pub fn path_position(len: usize, index: isize) -> (position: Option<usize>)
    requires
        len <= isize::MAX,
    ensures
        match index_position(len as int, index as int) {
            Some(p) => position == Some(p as usize),
            None => position is None,
        },
{
    let position: isize = if index < 0 {
        index + len as isize
    } else {
        index
    };
    if position < 0 || position as usize >= len {
        None
    } else {
        Some(position as usize)
    }
}

/// The positions a slice selects: `count` positions from `start` by `step`,
/// when all lie in the path.
pub open spec fn slice_positions(len: int, start: int, step: int, count: int) -> Option<Seq<int>> {
    let positions = Seq::new(count as nat, |k: int| start + k * step);
    if forall|k: int| 0 <= k < count ==> 0 <= #[trigger] positions[k] < len {
        Some(positions)
    } else {
        None
    }
}

/// Select the steps of a slice, given the start, step and length that the
/// slice resolves to; none when a position falls outside the path.
pub fn slice_steps(len: usize, start: isize, step: isize, count: usize) -> (positions: Option<Vec<usize>>)
    ensures
        match slice_positions(len as int, start as int, step as int, count as int) {
            Some(p) => positions matches Some(v) && v@.len() == count && forall|k: int|
                0 <= k < count ==> #[trigger] v@[k] == p[k],
            None => positions is None,
        },
{
    let mut positions: Vec<usize> = Vec::new();
    let mut current: i128 = start as i128;
    let mut k: usize = 0;
    while k < count
        invariant
            k <= count,
            positions@.len() == k,
            current == start + k * step,
            forall|j: int| 0 <= j < k ==> #[trigger] positions@[j] == start + j * step,
            forall|j: int| 0 <= j < k ==> #[trigger] positions@[j] < len,
            -0x8000_0000_0000_0000 <= current < 0x1_8000_0000_0000_0000,
        decreases count - k,
    {
        if current < 0 || current >= len as i128 {
            proof {
                let p = Seq::new(count as nat, |j: int| start + j * step);
                assert(p[k as int] == current);
            }
            return None;
        }
        positions.push(current as usize);
        proof {
            assert(start + (k + 1) * step == current + step) by (nonlinear_arith)
                requires
                    current == start + k * step,
            ;
        }
        current = current + step as i128;
        k = k + 1;
    }
    proof {
        let p = Seq::new(count as nat, |j: int| start + j * step);
        assert forall|j: int| 0 <= j < count implies 0 <= #[trigger] p[j] < len by {
            assert(positions@[j] == p[j]);
        }
    }
    Some(positions)
}

} // verus!
