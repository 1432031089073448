//! The stack of containers open during serialization: when a container may
//! open, how its items are separated and indented, how it closes, and the
//! order of sorted dictionary keys.

use vstd::prelude::*;
use crate::encoder::{
    extended_by, indentation, lemma_extended_chain, Encoder, OutputAllocationError, INDENT,
    MAX_ENCODE_DEPTH, SORT_KEYS,
};

verus! {

/// What the caller found where a value goes.
#[derive(Clone, Copy, Debug, PartialEq, Eq, Structural)]
pub enum Node {
    /// An exact `dict`.
    Dict,
    /// An exact `list`.
    List,
    /// An exact `tuple`.
    Tuple,
    /// Anything else, which is not a container of the native encoder.
    Other,
}

/// An open container.
#[derive(Clone, Copy, Debug, PartialEq, Eq, Structural)]
pub struct Frame {
    /// Identity of the container object, for cycle checks.
    pub identity: usize,
    /// Items written so far.
    pub count: usize,
    /// The closing bracket.
    pub closing: u8,
    /// Default-callback depth that the container's items start from.
    pub default_depth: usize,
}

/// Why a traversal stops.
#[derive(Clone, Copy, Debug, PartialEq, Eq, Structural)]
pub enum TraversalError {
    /// Containers nest deeper than the limit.
    RecursionLimit,
    /// A container contains itself.
    CircularReference,
    /// Default callbacks replaced one value too many times in a row.
    DefaultRecursion,
    /// Growing the output failed.
    Allocation,
}

/// The outcome of offering a value to the native encoder as a container.
#[derive(Clone, Copy, Debug, PartialEq, Eq, Structural)]
pub enum Admission {
    /// The value opens a container here.
    Open,
    /// The value is left to the caller's serializer.
    Fallback,
}

/// Most containers open at once.
pub const MAX_FRAMES: usize = 256;
/// Most consecutive default-callback replacements of one value.
pub const MAX_DEFAULT_DEPTH: usize = 255;

/// Whether the native encoder refuses to nest another container: the open
/// containers plus the caller's reach the limit, except for a dataclass
/// root's own fields.
pub open spec fn depth_refused(depth: int, base: int, dataclass_root: bool) -> bool {
    depth + base >= MAX_ENCODE_DEPTH && (!dataclass_root || depth > 0)
}

/// Whether some open container has this identity.
pub open spec fn contains_identity(frames: Seq<Frame>, identity: usize) -> bool {
    exists|i: int| 0 <= i < frames.len() && (#[trigger] frames[i]).identity == identity
}

/// The native encoder's decision for a value met as a child.
pub open spec fn native_admission(
    frames: Seq<Frame>,
    base: int,
    dataclass_root: bool,
    identity: usize,
    node: Node,
) -> Result<Admission, TraversalError> {
    if depth_refused(frames.len() as int, base, dataclass_root) {
        if node == Node::Other {
            Ok(Admission::Fallback)
        } else {
            Err(TraversalError::RecursionLimit)
        }
    } else if contains_identity(frames, identity) {
        Err(TraversalError::CircularReference)
    } else if node == Node::Other {
        Ok(Admission::Fallback)
    } else {
        Ok(Admission::Open)
    }
}

/// The callback-aware encoder's decision for a container: it may not open
/// at or beyond the limit (one deeper for a dataclass), nor inside itself.
pub open spec fn object_allowed(frames: Seq<Frame>, identity: usize, dataclass: bool) -> bool {
    let limit = if dataclass {
        MAX_ENCODE_DEPTH + 1
    } else {
        MAX_ENCODE_DEPTH as int
    };
    frames.len() < limit && !contains_identity(frames, identity)
}

/// A line break and indentation for `levels` levels when indenting.
pub open spec fn line_break(flags: i32, levels: int) -> Seq<u8> {
    if flags & INDENT != 0 {
        indentation(levels as nat)
    } else {
        Seq::empty()
    }
}

/// What precedes an item: a comma after the first, then a line break at
/// the item's depth.
pub open spec fn item_prefix(flags: i32, count: int, levels: int) -> Seq<u8> {
    (if count != 0 {
        seq![0x2cu8]
    } else {
        Seq::empty()
    }) + line_break(flags, levels)
}

/// What closes a container: a line break at the parent's depth when it has
/// items, then the closing bracket.
pub open spec fn closing_text(flags: i32, count: int, levels: int, closing: u8) -> Seq<u8> {
    (if count != 0 {
        line_break(flags, levels)
    } else {
        Seq::empty()
    }) + seq![closing]
}

/// What separates a key from its value: a colon, and a space when indenting.
pub open spec fn colon_text(flags: i32) -> Seq<u8> {
    if flags & INDENT != 0 {
        seq![0x3au8, 0x20u8]
    } else {
        seq![0x3au8]
    }
}

/// The open containers, kept in a `smallvec::SmallVec` that holds the first
/// two inline.
#[verifier::external_body]
pub struct FrameStack {
    frames: smallvec::SmallVec<[Frame; 2]>,
}

/// The frames a stack holds, outermost first.
pub uninterp spec fn stack_frames(stack: FrameStack) -> Seq<Frame>;

impl FrameStack {
    /// `SmallVec::new`: an empty stack.
    #[verifier::external_body]
    fn new() -> (stack: Self)
        ensures
            stack_frames(stack) == Seq::<Frame>::empty(),
    {
        FrameStack { frames: smallvec::SmallVec::new() }
    }

    /// `SmallVec::len`: the number of frames.
    #[verifier::external_body]
    fn len(&self) -> (len: usize)
        ensures
            len == stack_frames(*self).len(),
    {
        self.frames.len()
    }

    /// Indexing a `SmallVec`: a copy of frame `index`.
    #[verifier::external_body]
    fn get(&self, index: usize) -> (frame: Frame)
        requires
            index < stack_frames(*self).len(),
        ensures
            frame == stack_frames(*self)[index as int],
    {
        self.frames[index]
    }

    /// `SmallVec::push`: the frame goes on top.
    #[verifier::external_body]
    fn push(&mut self, frame: Frame)
        ensures
            stack_frames(*final(self)) == stack_frames(*old(self)).push(frame),
    {
        self.frames.push(frame);
    }

    /// `SmallVec::pop`: the top frame comes off, if there is one.
    #[verifier::external_body]
    fn pop(&mut self) -> (frame: Option<Frame>)
        ensures
            stack_frames(*old(self)).len() == 0 ==> frame is None && stack_frames(*final(self))
                == stack_frames(*old(self)),
            stack_frames(*old(self)).len() > 0 ==> frame == Some(stack_frames(*old(self)).last())
                && stack_frames(*final(self)) == stack_frames(*old(self)).drop_last(),
    {
        self.frames.pop()
    }

    /// Assigning through `SmallVec`'s `IndexMut`: frame `index` is replaced.
    #[verifier::external_body]
    fn set(&mut self, index: usize, frame: Frame)
        requires
            index < stack_frames(*old(self)).len(),
        ensures
            stack_frames(*final(self)) == stack_frames(*old(self)).update(index as int, frame),
    {
        self.frames[index] = frame;
    }
}

/// The containers open during one serialization.
pub struct Containers {
    frames: FrameStack,
    default_depth: usize,
}

impl Containers {
    /// The open containers, outermost first.
    pub closed spec fn frames(&self) -> Seq<Frame> {
        stack_frames(self.frames)
    }

    /// Consecutive default-callback replacements of the current value.
    pub closed spec fn callback_depth(&self) -> usize {
        self.default_depth
    }

    /// At most `MAX_FRAMES` containers are open, and no default-callback
    /// depth exceeds `MAX_DEFAULT_DEPTH`.
    pub closed spec fn wf(&self) -> bool {
        &&& self.frames().len() <= MAX_FRAMES
        &&& self.default_depth <= MAX_DEFAULT_DEPTH
        &&& forall|i: int|
            0 <= i < self.frames().len() ==> (#[trigger] self.frames()[i]).default_depth
                <= MAX_DEFAULT_DEPTH
    }

    /// No open container.
    pub fn new() -> (containers: Self)
        ensures
            containers.wf(),
            containers.frames() == Seq::<Frame>::empty(),
            containers.callback_depth() == 0,
    {
        Containers { frames: FrameStack::new(), default_depth: 0 }
    }

    /// Number of open containers.
    pub fn depth(&self) -> (depth: usize)
        ensures
            depth == self.frames().len(),
    {
        self.frames.len()
    }

    /// Whether a container with this identity is open.
    pub fn contains(&self, identity: usize) -> (found: bool)
        ensures
            found == contains_identity(self.frames(), identity),
    {
        let mut i: usize = 0;
        while i < self.frames.len()
            invariant
                i <= self.frames().len(),
                forall|j: int| 0 <= j < i ==> (#[trigger] self.frames()[j]).identity != identity,
            decreases self.frames().len() - i,
        {
            if self.frames.get(i).identity == identity {
                return true;
            }
            i = i + 1;
        }
        false
    }

    /// Decide whether the native encoder opens `node` as a container here,
    /// leaves it to the caller, or stops.
    pub fn offer(&self, encoder: &Encoder, identity: usize, node: Node) -> (admission: Result<Admission, TraversalError>)
        ensures
            admission == native_admission(
                self.frames(),
                encoder.base() as int,
                encoder.root_is_dataclass(),
                identity,
                node,
            ),
    {
        let depth = self.frames.len();
        let refused = depth >= MAX_ENCODE_DEPTH || MAX_ENCODE_DEPTH - depth <= encoder.base_depth();
        if refused && (!encoder.dataclass_root() || depth != 0) {
            if node == Node::Other {
                return Ok(Admission::Fallback);
            }
            return Err(TraversalError::RecursionLimit);
        }
        if self.contains(identity) {
            return Err(TraversalError::CircularReference);
        }
        if node == Node::Other {
            Ok(Admission::Fallback)
        } else {
            Ok(Admission::Open)
        }
    }

    /// Decide whether the callback-aware encoder may open a container.
    pub fn offer_object(&self, identity: usize, dataclass: bool) -> (result: Result<(), TraversalError>)
        ensures
            result is Ok <==> object_allowed(self.frames(), identity, dataclass),
            result is Err ==> result == Err::<(), TraversalError>(TraversalError::RecursionLimit),
    {
        let limit = if dataclass {
            MAX_ENCODE_DEPTH + 1
        } else {
            MAX_ENCODE_DEPTH
        };
        if self.frames.len() >= limit || self.contains(identity) {
            Err(TraversalError::RecursionLimit)
        } else {
            Ok(())
        }
    }

    /// Whether the native encoder sorts the keys of a dictionary opened here:
    /// under `SORT_KEYS`, except for a dataclass root's own fields.
    pub fn sorts_keys(&self, encoder: &Encoder) -> (sorts: bool)
        ensures
            sorts == (encoder.flags() & SORT_KEYS != 0 && (!encoder.root_is_dataclass()
                || self.frames().len() > 0)),
    {
        encoder.option() & SORT_KEYS != 0 && (!encoder.dataclass_root() || self.frames.len()
            != 0)
    }

    /// Open a container: write its opening bracket and push its frame.
    pub fn open(&mut self, encoder: &mut Encoder, identity: usize, object: bool) -> (result: Result<(), OutputAllocationError>)
        requires
            old(self).wf(),
            old(encoder).wf(),
            old(self).frames().len() < MAX_FRAMES,
        ensures
            final(self).wf(),
            final(encoder).wf(),
            final(encoder).same_state(&*old(encoder)),
            final(self).callback_depth() == old(self).callback_depth(),
            extended_by(
                old(encoder).is_checked(),
                old(encoder).bytes(),
                final(encoder).bytes(),
                seq![if object { 0x7bu8 } else { 0x5bu8 }],
                result is Ok,
            ),
            result is Ok ==> final(self).frames() == old(self).frames().push(
                Frame {
                    identity,
                    count: 0,
                    closing: if object {
                        0x7du8
                    } else {
                        0x5du8
                    },
                    default_depth: old(self).callback_depth(),
                },
            ),
            result is Err ==> final(self).frames() == old(self).frames(),
    {
        let (opening, closing): (u8, u8) = if object {
            (0x7b, 0x7d)
        } else {
            (0x5b, 0x5d)
        };
        encoder.push(opening)?;
        self.frames.push(Frame { identity, count: 0, closing, default_depth: self.default_depth });
        Ok(())
    }

    /// Start the next item of the innermost container: a comma after its
    /// first item and a line break at its depth. Its items start from the
    /// container's default-callback depth.
    pub fn item(&mut self, encoder: &mut Encoder) -> (result: Result<(), OutputAllocationError>)
        requires
            old(self).wf(),
            old(encoder).wf(),
            old(self).frames().len() > 0,
            old(self).frames().last().count < usize::MAX,
            old(encoder).base() <= MAX_ENCODE_DEPTH,
        ensures
            final(self).wf(),
            final(encoder).wf(),
            final(encoder).same_state(&*old(encoder)),
            final(self).frames().len() == old(self).frames().len(),
            ({
                let last = old(self).frames().last();
                &&& extended_by(
                    old(encoder).is_checked(),
                    old(encoder).bytes(),
                    final(encoder).bytes(),
                    item_prefix(
                        old(encoder).flags(),
                        last.count as int,
                        old(self).frames().len() + old(encoder).base(),
                    ),
                    result is Ok,
                )
                &&& result is Ok ==> final(self).frames() == old(self).frames().update(
                    old(self).frames().len() - 1,
                    Frame { count: (last.count + 1) as usize, ..last },
                ) && final(self).callback_depth() == last.default_depth
                &&& result is Err ==> final(self).frames() == old(self).frames()
                    && final(self).callback_depth() == old(self).callback_depth()
            }),
    {
        let depth = self.frames.len();
        let top = depth - 1;
        let frame = self.frames.get(top);
        let ghost start = encoder.bytes();
        let ghost checked = encoder.is_checked();
        if frame.count != 0 {
            encoder.push(0x2c)?;
        }
        let ghost middle = encoder.bytes();
        proof {
            if frame.count == 0 {
                assert(start + Seq::<u8>::empty() =~= start);
            }
        }
        let next = frame.count + 1;
        let r = encoder.newline(depth);
        proof {
            lemma_extended_chain(
                checked,
                start,
                middle,
                encoder.bytes(),
                if frame.count != 0 {
                    seq![0x2cu8]
                } else {
                    Seq::empty()
                },
                line_break(encoder.flags(), depth + encoder.base()),
                r is Ok,
            );
        }
        r?;
        self.frames.set(top, Frame { count: next, ..frame });
        self.default_depth = frame.default_depth;
        Ok(())
    }

    /// Close the innermost container: a line break at the parent's depth
    /// when it has items, then its closing bracket.
    pub fn close(&mut self, encoder: &mut Encoder) -> (result: Result<(), OutputAllocationError>)
        requires
            old(self).wf(),
            old(encoder).wf(),
            old(self).frames().len() > 0,
            old(encoder).base() <= MAX_ENCODE_DEPTH,
        ensures
            final(self).wf(),
            final(encoder).wf(),
            final(encoder).same_state(&*old(encoder)),
            final(self).frames() == old(self).frames().drop_last(),
            final(self).callback_depth() == old(self).callback_depth(),
            ({
                let last = old(self).frames().last();
                extended_by(
                    old(encoder).is_checked(),
                    old(encoder).bytes(),
                    final(encoder).bytes(),
                    closing_text(
                        old(encoder).flags(),
                        last.count as int,
                        old(self).frames().len() - 1 + old(encoder).base(),
                        last.closing,
                    ),
                    result is Ok,
                )
            }),
    {
        let frame = match self.frames.pop() {
            Some(frame) => frame,
            None => {
                return Ok(());
            },
        };
        let depth = self.frames.len();
        let ghost start = encoder.bytes();
        let ghost checked = encoder.is_checked();
        if frame.count != 0 {
            encoder.newline(depth)?;
        }
        let ghost middle = encoder.bytes();
        proof {
            if frame.count == 0 {
                assert(start + Seq::<u8>::empty() =~= start);
            }
        }
        let r = encoder.push(frame.closing);
        proof {
            lemma_extended_chain(
                checked,
                start,
                middle,
                encoder.bytes(),
                if frame.count != 0 {
                    line_break(encoder.flags(), depth + encoder.base())
                } else {
                    Seq::empty()
                },
                seq![frame.closing],
                r is Ok,
            );
        }
        r
    }

    /// Count one more default-callback replacement of the current value,
    /// refusing the one beyond `MAX_DEFAULT_DEPTH`.
    pub fn enter_default(&mut self) -> (result: Result<(), TraversalError>)
        requires
            old(self).wf(),
        ensures
            final(self).wf(),
            final(self).frames() == old(self).frames(),
            old(self).callback_depth() == MAX_DEFAULT_DEPTH ==> result == Err::<(), TraversalError>(
                TraversalError::DefaultRecursion,
            ) && final(self).callback_depth() == old(self).callback_depth(),
            old(self).callback_depth() != MAX_DEFAULT_DEPTH ==> result is Ok
                && final(self).callback_depth() == old(self).callback_depth() + 1,
    {
        if self.default_depth == MAX_DEFAULT_DEPTH {
            return Err(TraversalError::DefaultRecursion);
        }
        self.default_depth = self.default_depth + 1;
        Ok(())
    }
}

/// Separate a key from its value: a colon, and a space when indenting.
pub fn write_colon(encoder: &mut Encoder) -> (result: Result<(), OutputAllocationError>)
    requires
        old(encoder).wf(),
    ensures
        final(encoder).wf(),
        final(encoder).same_state(&*old(encoder)),
        extended_by(
            old(encoder).is_checked(),
            old(encoder).bytes(),
            final(encoder).bytes(),
            colon_text(old(encoder).flags()),
            result is Ok,
        ),
{
    let ghost start = encoder.bytes();
    encoder.push(0x3a)?;
    if encoder.option() & INDENT != 0 {
        let ghost middle = encoder.bytes();
        let r = encoder.push(0x20);
        proof {
            lemma_extended_chain(
                encoder.is_checked(),
                start,
                middle,
                encoder.bytes(),
                seq![0x3au8],
                seq![0x20u8],
                r is Ok,
            );
            assert(seq![0x3au8] + seq![0x20u8] =~= seq![0x3au8, 0x20u8]);
        }
        r
    } else {
        Ok(())
    }
}

/// Whether `a` orders before `b` byte by byte, a proper prefix first.
pub open spec fn lex_less(a: Seq<u8>, b: Seq<u8>) -> bool
    decreases a.len(),
{
    if a.len() == 0 {
        b.len() > 0
    } else if b.len() == 0 {
        false
    } else if a[0] != b[0] {
        a[0] < b[0]
    } else {
        lex_less(a.skip(1), b.skip(1))
    }
}

/// Key `i` goes before key `j`: by its bytes, and by position between equal keys.
pub open spec fn key_before(keys: Seq<Seq<u8>>, i: int, j: int) -> bool {
    lex_less(keys[i], keys[j]) || (keys[i] == keys[j] && i < j)
}

/// The bytes of each key.
pub open spec fn key_bytes(keys: Seq<&[u8]>) -> Seq<Seq<u8>> {
    keys.map_values(|k: &[u8]| k@)
}

/// `order` lists key positions, each in range, each key strictly before the next.
pub open spec fn sorted_order(keys: Seq<Seq<u8>>, order: Seq<usize>) -> bool {
    &&& order.len() == keys.len()
    &&& forall|i: int| 0 <= i < order.len() ==> #[trigger] order[i] < keys.len()
    &&& forall|i: int, j: int|
        0 <= i < j < order.len() ==> key_before(keys, #[trigger] order[i] as int, #[trigger] order[j] as int)
}

/// `lex_less` is irreflexive.
pub proof fn lemma_lex_irreflexive(a: Seq<u8>)
    ensures
        !lex_less(a, a),
    decreases a.len(),
{
    if a.len() > 0 {
        lemma_lex_irreflexive(a.skip(1));
    }
}

/// `lex_less` is transitive.
pub proof fn lemma_lex_transitive(a: Seq<u8>, b: Seq<u8>, c: Seq<u8>)
    requires
        lex_less(a, b),
        lex_less(b, c),
    ensures
        lex_less(a, c),
    decreases a.len(),
{
    if a.len() > 0 && b.len() > 0 && c.len() > 0 && a[0] == b[0] && b[0] == c[0] {
        lemma_lex_transitive(a.skip(1), b.skip(1), c.skip(1));
    }
}

/// Of two different byte strings, one orders before the other.
pub proof fn lemma_lex_total(a: Seq<u8>, b: Seq<u8>)
    requires
        a != b,
    ensures
        lex_less(a, b) || lex_less(b, a),
    decreases a.len(),
{
    if a.len() > 0 && b.len() > 0 && a[0] == b[0] {
        if a.skip(1) == b.skip(1) {
            assert(a =~= seq![a[0]] + a.skip(1));
            assert(b =~= seq![b[0]] + b.skip(1));
        }
        lemma_lex_total(a.skip(1), b.skip(1));
    } else if a.len() == 0 && b.len() == 0 {
        assert(a =~= b);
    }
}

/// `lex_less` is asymmetric.
pub proof fn lemma_lex_asymmetric(a: Seq<u8>, b: Seq<u8>)
    requires
        lex_less(a, b),
    ensures
        !lex_less(b, a),
{
    if lex_less(b, a) {
        lemma_lex_transitive(a, b, a);
        lemma_lex_irreflexive(a);
    }
}

proof fn lemma_key_before_transitive(keys: Seq<Seq<u8>>, x: int, y: int, z: int)
    requires
        key_before(keys, x, y),
        key_before(keys, y, z),
    ensures
        key_before(keys, x, z),
{
    if lex_less(keys[x], keys[y]) && lex_less(keys[y], keys[z]) {
        lemma_lex_transitive(keys[x], keys[y], keys[z]);
    }
}

proof fn lemma_key_before_total(keys: Seq<Seq<u8>>, x: int, y: int)
    requires
        x != y,
    ensures
        key_before(keys, x, y) || key_before(keys, y, x),
{
    if keys[x] != keys[y] {
        lemma_lex_total(keys[x], keys[y]);
    }
}

/// Whether `a` orders before `b` byte by byte.
pub fn bytes_less(a: &[u8], b: &[u8]) -> (less: bool)
    ensures
        less == lex_less(a@, b@),
{
    let mut i: usize = 0;
    proof {
        assert(a@.skip(0) =~= a@);
        assert(b@.skip(0) =~= b@);
    }
    while i < a.len() && i < b.len()
        invariant
            i <= a@.len(),
            i <= b@.len(),
            lex_less(a@, b@) == lex_less(a@.skip(i as int), b@.skip(i as int)),
        decreases a@.len() - i,
    {
        if a[i] != b[i] {
            return a[i] < b[i];
        }
        proof {
            assert(a@.skip(i as int).skip(1) =~= a@.skip(i + 1));
            assert(b@.skip(i as int).skip(1) =~= b@.skip(i + 1));
        }
        i = i + 1;
    }
    i < b.len()
}

/// Whether key `i` goes before key `j`.
fn precedes(keys: &[&[u8]], i: usize, j: usize) -> (before: bool)
    requires
        i < keys@.len(),
        j < keys@.len(),
    ensures
        before == key_before(key_bytes(keys@), i as int, j as int),
{
    let a = keys[i];
    let b = keys[j];
    if bytes_less(a, b) {
        return true;
    }
    let reversed = bytes_less(b, a);
    proof {
        if !lex_less(a@, b@) && !lex_less(b@, a@) && a@ != b@ {
            lemma_lex_total(a@, b@);
        }
        if lex_less(b@, a@) {
            lemma_lex_irreflexive(a@);
        }
    }
    !reversed && i < j
}

/// The positions of `keys` in sorted order: by bytes, which for UTF-8 text is
/// code point order, and by position between equal keys.
pub fn sorted_key_order(keys: &[&[u8]]) -> (order: Vec<usize>)
    ensures
        sorted_order(key_bytes(keys@), order@),
{
    let ghost texts = key_bytes(keys@);
    let n = keys.len();
    let mut order: Vec<usize> = Vec::new();
    let mut i: usize = 0;
    while i < n
        invariant
            n == keys@.len(),
            texts == key_bytes(keys@),
            i <= n,
            order@.len() == i,
            forall|k: int| 0 <= k < i ==> #[trigger] order@[k] < i,
            forall|a: int, b: int|
                0 <= a < b < i ==> key_before(texts, #[trigger] order@[a] as int, #[trigger] order@[b] as int),
        decreases n - i,
    {
        let mut p: usize = i;
        while p > 0 && precedes(keys, i, order[p - 1])
            invariant
                n == keys@.len(),
                texts == key_bytes(keys@),
                i < n,
                order@.len() == i,
                p <= i,
                forall|k: int| 0 <= k < i ==> #[trigger] order@[k] < i,
                forall|k: int| p <= k < i ==> key_before(texts, i as int, #[trigger] order@[k] as int),
            decreases p,
        {
            p = p - 1;
        }
        let ghost previous = order@;
        proof {
            if p > 0 {
                assert(!key_before(texts, i as int, previous[p - 1] as int));
                lemma_key_before_total(texts, i as int, previous[p - 1] as int);
            }
        }
        order.insert(p, i);
        proof {
            assert(order@ == previous.insert(p as int, i));
            assert forall|a: int, b: int|
                0 <= a < b < i + 1 implies key_before(texts, #[trigger] order@[a] as int, #[trigger] order@[b] as int) by {
                if b < p {
                    assert(order@[a] == previous[a] && order@[b] == previous[b]);
                } else if b == p {
                    assert(order@[a] == previous[a]);
                    if a < p - 1 {
                        assert(key_before(texts, previous[a] as int, previous[p - 1] as int));
                        lemma_key_before_transitive(
                            texts,
                            previous[a] as int,
                            previous[p - 1] as int,
                            i as int,
                        );
                    }
                } else if a < p {
                    assert(order@[a] == previous[a] && order@[b] == previous[b - 1]);
                } else if a == p {
                    assert(order@[b] == previous[b - 1]);
                } else {
                    assert(order@[a] == previous[a - 1] && order@[b] == previous[b - 1]);
                }
            }
            assert forall|k: int| 0 <= k < i + 1 implies #[trigger] order@[k] < i + 1 by {
                if k < p {
                    assert(order@[k] == previous[k]);
                } else if k > p {
                    assert(order@[k] == previous[k - 1]);
                }
            }
        }
        i = i + 1;
    }
    order
}

/// A sorted order lists every key position exactly once.
pub proof fn lemma_sorted_order_is_permutation(keys: Seq<Seq<u8>>, order: Seq<usize>)
    requires
        sorted_order(keys, order),
    ensures
        order.no_duplicates(),
        forall|k: int| 0 <= k < keys.len() ==> #[trigger] order.contains(k as usize),
{
    broadcast use vstd::seq_lib::group_seq_properties, vstd::set::group_set_axioms;

    assert forall|i: int, j: int| 0 <= i < order.len() && 0 <= j < order.len() && i != j implies order[i]
        != order[j] by {
        let (a, b) = if i < j {
            (i, j)
        } else {
            (j, i)
        };
        assert(key_before(keys, order[a] as int, order[b] as int));
        if order[a] == order[b] {
            lemma_lex_irreflexive(keys[order[a] as int]);
        }
    }
    let n = keys.len() as int;
    let positions = order.map_values(|v: usize| v as int);
    assert(positions.no_duplicates()) by {
        assert forall|i: int, j: int| 0 <= i < positions.len() && 0 <= j < positions.len() && i != j implies positions[i]
            != positions[j] by {
            assert(order[i] != order[j]);
        }
    }
    positions.unique_seq_to_set();
    vstd::set_lib::lemma_int_range(0, n);
    let range = vstd::set_lib::set_int_range(0, n);
    assert(positions.to_set().subset_of(range)) by {
        assert forall|x: int| positions.to_set().contains(x) implies range.contains(x) by {
            assert(positions.contains(x));
            let i = choose|i: int| 0 <= i < positions.len() && positions[i] == x;
            assert(order[i] < n);
        }
    }
    vstd::set_lib::lemma_subset_equality(positions.to_set(), range);
    assert forall|k: int| 0 <= k < keys.len() implies #[trigger] order.contains(k as usize) by {
        assert(range.contains(k));
        assert(positions.to_set().contains(k));
        assert(positions.contains(k));
        let i = choose|i: int| 0 <= i < positions.len() && positions[i] == k;
        assert(order[i] == k as usize);
    }
}

} // verus!
