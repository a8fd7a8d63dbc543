//! A JSON syntax tree held in an arena, and the search for the key that a key
//! path names in it.
use vstd::prelude::*;
use crate::text::views;
use vstd::string::StringSliceAdditionalSpecFns;
use vstd::utf8::encode_utf8;

verus! {

/// A zero-based line and column in a source text.
#[derive(Clone, Copy, Debug, PartialEq, Eq, Structural)]
pub struct Position {
    pub line: usize,
    pub column: usize,
}

/// One node of a syntax tree. Nodes refer to each other by their index in
/// the tree's arena.
pub struct SyntaxNode {
    /// The grammar's name for the node (`object`, `pair`, `string`, `{`, ...).
    pub kind: String,
    /// Whether the node carries meaning, as opposed to punctuation.
    pub named: bool,
    /// Where the node starts in the source.
    pub start: Position,
    /// The node's text is the bytes `start_byte .. end_byte` of the source.
    pub start_byte: usize,
    pub end_byte: usize,
    /// The children, in source order.
    pub children: Vec<usize>,
    /// The child in the role `key` of a pair, if any.
    pub key: Option<usize>,
    /// The child in the role `value` of a pair, if any.
    pub value: Option<usize>,
}

/// Whether `i` indexes one of `len` nodes.
pub open spec fn in_arena(i: Option<usize>, len: int) -> bool {
    match i {
        Some(k) => k < len,
        None => true,
    }
}

/// The zero-based line and byte column of byte `i` of `source`: lines end
/// at each `\n`.
pub open spec fn position_at(source: Seq<u8>, i: int) -> (nat, nat)
    decreases i,
{
    if i <= 0 || i > source.len() {
        (0, 0)
    } else {
        let prev = position_at(source, i - 1);
        if source[i - 1] == 10u8 {
            (prev.0 + 1, 0)
        } else {
            (prev.0, prev.1 + 1)
        }
    }
}

/// Whether `n` refers only to nodes of an arena of `len` nodes, its text lies
/// within `source`, and its position is that of its first byte.
pub open spec fn node_ok(n: SyntaxNode, len: int, source: Seq<u8>) -> bool {
    &&& n.start_byte <= n.end_byte <= source.len()
    &&& position_at(source, n.start_byte as int) == (n.start.line as nat, n.start.column as nat)
    &&& forall|j: int| 0 <= j < n.children@.len() ==> n.children@[j] < len
    &&& in_arena(n.key, len)
    &&& in_arena(n.value, len)
}

/// Whether the parts of a syntax tree fit together.
pub open spec fn parts_ok(text: Seq<char>, nodes: Seq<SyntaxNode>, root: usize) -> bool {
    &&& root < nodes.len()
    &&& forall|i: int| 0 <= i < nodes.len() ==> node_ok(#[trigger] nodes[i], nodes.len() as int, encode_utf8(text))
}

/// A JSON source text together with its syntax tree.
pub struct JsonFile {
    pub text: String,
    pub nodes: Vec<SyntaxNode>,
    /// The `document` node.
    pub root: usize,
    /// Whether the parser had to recover from a syntax error in `text`.
    pub has_error: bool,
}

/// The position of every byte offset of `src`, and of its end.
fn positions(src: &[u8]) -> (r: Vec<Position>)
    ensures
        r@.len() == src@.len() + 1,
        forall|k: int| 0 <= k <= src@.len() ==> position_at(src@, k) == (
            #[trigger] r@[k].line as nat,
            r@[k].column as nat,
        ),
{
    let mut table: Vec<Position> = Vec::new();
    let mut line: usize = 0;
    let mut column: usize = 0;
    let mut i: usize = 0;
    table.push(Position { line, column });
    while i < src.len()
        invariant
            0 <= i <= src@.len(),
            line <= i,
            column <= i,
            table@.len() == i + 1,
            position_at(src@, i as int) == (line as nat, column as nat),
            table@[i as int] == (Position { line, column }),
            forall|k: int| 0 <= k <= i ==> position_at(src@, k) == (
                #[trigger] table@[k].line as nat,
                table@[k].column as nat,
            ),
        decreases src@.len() - i,
    {
        if src[i] == 10u8 {
            line = line + 1;
            column = 0;
        } else {
            column = column + 1;
        }
        i = i + 1;
        table.push(Position { line, column });
    }
    table
}

impl JsonFile {
    pub open spec fn wf(&self) -> bool {
        parts_ok(self.text@, self.nodes@, self.root)
    }

    /// The source as UTF-8 bytes.
    pub open spec fn source(&self) -> Seq<u8> {
        encode_utf8(self.text@)
    }

    /// Node `n` is a `{` token.
    pub open spec fn is_open_brace(&self, n: int) -> bool {
        self.nodes@[n].kind@ == seq!['{']
    }

    /// Node `n` opens an object: its first child is a `{` token.
    pub open spec fn opens_object(&self, n: int) -> bool {
        &&& 0 <= n < self.nodes@.len()
        &&& self.nodes@[n].children@.len() > 0
        &&& self.is_open_brace(self.nodes@[n].children@[0] as int)
    }

    /// The raw bytes between the quotes of a string node; none if the node's
    /// text is not enclosed in `"`.
    pub open spec fn string_text(&self, n: int) -> Option<Seq<u8>> {
        let node = self.nodes@[n];
        let src = self.source();
        if node.end_byte - node.start_byte >= 2 && src[node.start_byte as int] == 34u8 && src[node.end_byte
            - 1] == 34u8 {
            Some(src.subrange(node.start_byte + 1, node.end_byte - 1))
        } else {
            None
        }
    }

    /// Node `n` is a named node with a key whose content is `seg`.
    pub open spec fn pair_matches(&self, n: int, seg: Seq<char>) -> bool {
        &&& self.nodes@[n].named
        &&& self.nodes@[n].key matches Some(k) && self.string_text(k as int) == Some(encode_utf8(seg))
    }

    /// The first child of `obj`, from the `j`-th on, that is a pair with key `seg`.
    pub open spec fn first_match(&self, obj: int, seg: Seq<char>, j: int) -> Option<int>
        decreases self.nodes@[obj].children@.len() - j,
    {
        let children = self.nodes@[obj].children@;
        if j < 0 || j >= children.len() {
            None
        } else if self.pair_matches(children[j] as int, seg) {
            Some(children[j] as int)
        } else {
            self.first_match(obj, seg, j + 1)
        }
    }

    /// Where the key that `segments` names starts, looking from the object
    /// `obj`: each segment but the last must name a pair whose value is an
    /// object, and the last one names the pair whose key is the answer.
    pub open spec fn definition_in(&self, obj: int, segments: Seq<Seq<char>>) -> Option<Position>
        decreases segments.len(),
    {
        if segments.len() == 0 {
            None
        } else {
            match self.first_match(obj, segments[0], 1) {
                None => None,
                Some(p) => {
                    let pair = self.nodes@[p];
                    if segments.len() == 1 {
                        match pair.key {
                            Some(k) => Some(self.nodes@[k as int].start),
                            None => None,
                        }
                    } else {
                        match pair.value {
                            Some(v) => if self.opens_object(v as int) {
                                self.definition_in(v as int, segments.drop_first())
                            } else {
                                None
                            },
                            None => None,
                        }
                    }
                },
            }
        }
    }

    /// The node that the document's content starts with, if any.
    pub open spec fn top(&self) -> Option<int> {
        let doc = self.nodes@[self.root as int];
        if doc.children@.len() > 0 {
            Some(doc.children@[0] as int)
        } else {
            None
        }
    }

    /// Where the key that `segments` names starts; none unless the document
    /// is an object without syntax errors.
    pub open spec fn definition_of(&self, segments: Seq<Seq<char>>) -> Option<Position> {
        if self.has_error {
            None
        } else {
            match self.top() {
                Some(t) => if self.opens_object(t) {
                    self.definition_in(t, segments)
                } else {
                    None
                },
                None => None,
            }
        }
    }

    /// A path whose first segment is not a key of the top object gives no position.
    pub proof fn lemma_missing_first_segment(&self, segments: Seq<Seq<char>>)
        requires
            segments.len() > 0,
            !self.has_error,
            !(self.top() matches Some(t) && self.opens_object(t) && self.first_match(t, segments[0], 1) is Some),
        ensures
            self.definition_of(segments) is None,
    {
    }

    /// A pair found among the children of `obj` is a node of the tree whose
    /// key is `seg`.
    proof fn lemma_first_match_ok(&self, obj: int, seg: Seq<char>, j: int)
        requires
            self.wf(),
            0 <= obj < self.nodes@.len(),
        ensures
            self.first_match(obj, seg, j) matches Some(p) ==> 0 <= p < self.nodes@.len()
                && self.pair_matches(p, seg),
        decreases self.nodes@[obj].children@.len() - j,
    {
        let children = self.nodes@[obj].children@;
        assert(node_ok(self.nodes@[obj], self.nodes@.len() as int, self.source()));
        if 0 <= j < children.len() && !self.pair_matches(children[j] as int, seg) {
            self.lemma_first_match_ok(obj, seg, j + 1);
        }
    }

    /// The position found from the object `obj` is that of a key node of the
    /// tree whose text is the last segment between quotes.
    pub proof fn lemma_definition_in_at_key(&self, obj: int, segments: Seq<Seq<char>>)
        requires
            self.wf(),
            0 <= obj < self.nodes@.len(),
        ensures
            self.definition_in(obj, segments) matches Some(p) ==> exists|k: int|
                0 <= k < self.nodes@.len() && #[trigger] self.string_text(k) == Some(
                    encode_utf8(segments.last()),
                ) && position_at(self.source(), self.nodes@[k].start_byte as int) == (
                    p.line as nat,
                    p.column as nat,
                ),
        decreases segments.len(),
    {
        if segments.len() > 0 {
            self.lemma_first_match_ok(obj, segments[0], 1);
            match self.first_match(obj, segments[0], 1) {
                Some(q) => {
                    let pair = self.nodes@[q];
                    assert(node_ok(pair, self.nodes@.len() as int, self.source()));
                    if segments.len() == 1 {
                        let k = pair.key->0 as int;
                        assert(node_ok(self.nodes@[k], self.nodes@.len() as int, self.source()));
                        assert(self.string_text(k) == Some(encode_utf8(segments.last())));
                    } else if let Some(v) = pair.value {
                        self.lemma_definition_in_at_key(v as int, segments.drop_first());
                        assert(segments.drop_first().last() == segments.last());
                    }
                },
                None => {},
            }
        }
    }

    /// A position found for a path is that of the first byte of a key in the
    /// source whose text is `"` and the last segment and `"`.
    pub proof fn lemma_definition_at_key(&self, segments: Seq<Seq<char>>)
        requires
            self.wf(),
        ensures
            self.definition_of(segments) matches Some(p) ==> exists|k: int|
                0 <= k < self.nodes@.len() && #[trigger] self.string_text(k) == Some(
                    encode_utf8(segments.last()),
                ) && position_at(self.source(), self.nodes@[k].start_byte as int) == (
                    p.line as nat,
                    p.column as nat,
                ),
    {
        if let Some(t) = self.top() {
            if self.opens_object(t) {
                self.lemma_definition_in_at_key(t, segments);
            }
        }
    }

    /// The empty path names no key, so it gives no position.
    pub proof fn lemma_empty_path(&self)
        ensures
            self.definition_of(Seq::empty()) is None,
    {
    }

    /// A document that is not an object gives no position, whatever the path.
    pub proof fn lemma_non_object_document(&self, segments: Seq<Seq<char>>)
        requires
            !(self.top() matches Some(t) && self.opens_object(t)),
        ensures
            self.definition_of(segments) is None,
    {
    }

    /// Builds a tree from its parts; none if a node refers to a node that is
    /// not in `nodes`, to bytes beyond the end of `text`, or gives a position
    /// other than that of its first byte, or if `root` is no node.
    pub fn new(text: String, nodes: Vec<SyntaxNode>, root: usize, has_error: bool) -> (r: Option<JsonFile>)
        ensures
            match r {
                Some(f) => f.text == text && f.nodes == nodes && f.root == root && f.has_error == has_error
                    && f.wf(),
                None => !parts_ok(text@, nodes@, root),
            },
    {
        let len = nodes.len();
        if root >= len {
            return None;
        }
        let src = text.as_str().as_bytes();
        let ghost source = encode_utf8(text@);
        let table = positions(src);
        let mut i: usize = 0;
        while i < len
            invariant
                0 <= i <= len == nodes@.len(),
                src@ == source,
                source == encode_utf8(text@),
                table@.len() == source.len() + 1,
                forall|k: int| 0 <= k <= source.len() ==> position_at(source, k) == (
                    #[trigger] table@[k].line as nat,
                    table@[k].column as nat,
                ),
                forall|k: int| 0 <= k < i ==> node_ok(#[trigger] nodes@[k], len as int, source),
            decreases len - i,
        {
            let n = &nodes[i];
            if n.start_byte > n.end_byte || n.end_byte > src.len() {
                assert(!node_ok(nodes@[i as int], len as int, source));
                return None;
            }
            let at = table[n.start_byte];
            if n.start != at {
                assert(position_at(source, n.start_byte as int) == (at.line as nat, at.column as nat));
                assert(!node_ok(nodes@[i as int], len as int, source));
                return None;
            }
            let mut j: usize = 0;
            while j < n.children.len()
                invariant
                    0 <= j <= n.children@.len(),
                    i < len == nodes@.len(),
                    *n == nodes@[i as int],
                    forall|m: int| 0 <= m < j ==> n.children@[m] < len,
                decreases n.children@.len() - j,
            {
                if n.children[j] >= len {
                    assert(!node_ok(nodes@[i as int], len as int, source));
                    return None;
                }
                j = j + 1;
            }
            match n.key {
                Some(k) => if k >= len {
                    assert(!node_ok(nodes@[i as int], len as int, source));
                    return None;
                },
                None => {},
            }
            match n.value {
                Some(v) => if v >= len {
                    assert(!node_ok(nodes@[i as int], len as int, source));
                    return None;
                },
                None => {},
            }
            i = i + 1;
        }
        Some(JsonFile { text, nodes, root, has_error })
    }

    /// Whether node `n` is a `{` token.
    fn is_open_brace_at(&self, n: usize) -> (r: bool)
        requires
            self.wf(),
            n < self.nodes@.len(),
        ensures
            r == self.is_open_brace(n as int),
    {
        let kind = &self.nodes[n].kind;
        let brace = String::from_str("{");
        proof {
            reveal_strlit("{");
        }
        assert(brace@ =~= seq!['{']);
        *kind == brace
    }

    /// Whether node `n` opens an object.
    fn opens_object_at(&self, n: usize) -> (r: bool)
        requires
            self.wf(),
            n < self.nodes@.len(),
        ensures
            r == self.opens_object(n as int),
    {
        let node = &self.nodes[n];
        if node.children.len() == 0 {
            return false;
        }
        assert(node_ok(self.nodes@[n as int], self.nodes@.len() as int, self.source()));
        self.is_open_brace_at(node.children[0])
    }

    /// Whether the string node `n` holds `text` between its quotes, byte for byte.
    pub fn is_string_equal(&self, n: usize, text: &String) -> (r: bool)
        requires
            self.wf(),
            n < self.nodes@.len(),
        ensures
            r == (self.string_text(n as int) == Some(encode_utf8(text@))),
    {
        let node = &self.nodes[n];
        let src = self.text.as_str().as_bytes();
        let want = text.as_str().as_bytes();
        assert(node_ok(self.nodes@[n as int], self.nodes@.len() as int, self.source()));
        let (start, end) = (node.start_byte, node.end_byte);
        if end - start < 2 || src[start] != 34u8 || src[end - 1] != 34u8 {
            return false;
        }
        let ghost content = src@.subrange(start + 1, end - 1);
        assert(self.string_text(n as int) == Some(content));
        if want.len() != end - start - 2 {
            assert(content.len() != want@.len());
            return false;
        }
        let mut i: usize = 0;
        while i < want.len()
            invariant
                0 <= i <= want@.len() == end - start - 2,
                end <= src@.len(),
                content == src@.subrange(start + 1, end - 1),
                want@ == encode_utf8(text@),
                self.string_text(n as int) == Some(content),
                forall|k: int| 0 <= k < i ==> want@[k] == content[k],
            decreases want@.len() - i,
        {
            if want[i] != src[start + 1 + i] {
                assert(want@[i as int] != content[i as int]);
                return false;
            }
            i = i + 1;
        }
        assert(content =~= want@);
        true
    }

    /// The first pair among the children of `obj`, after its first child,
    /// whose key is `seg`.
    fn find_pair(&self, obj: usize, seg: &String) -> (r: Option<usize>)
        requires
            self.wf(),
            obj < self.nodes@.len(),
        ensures
            match self.first_match(obj as int, seg@, 1) {
                Some(p) => r is Some && r->0 as int == p && p < self.nodes@.len(),
                None => r is None,
            },
    {
        let children = &self.nodes[obj].children;
        assert(node_ok(self.nodes@[obj as int], self.nodes@.len() as int, self.source()));
        let mut j: usize = 1;
        while j < children.len()
            invariant
                1 <= j,
                self.wf(),
                obj < self.nodes@.len(),
                children == self.nodes@[obj as int].children,
                forall|m: int| 0 <= m < children@.len() ==> children@[m] < self.nodes@.len(),
                self.first_match(obj as int, seg@, 1) == self.first_match(obj as int, seg@, j as int),
            decreases children@.len() - j,
        {
            let c = children[j];
            let named = self.nodes[c].named;
            if named {
                match self.nodes[c].key {
                    Some(k) => {
                        assert(node_ok(self.nodes@[c as int], self.nodes@.len() as int, self.source()));
                        if self.is_string_equal(k, seg) {
                            return Some(c);
                        }
                    },
                    None => {},
                }
            }
            j = j + 1;
        }
        None
    }

    /// Where the key that `key` names starts in the document: each element
    /// of `key` but the last names a pair whose value is an object, and the
    /// last names the pair whose key is returned. None for an empty path and
    /// for a document that is not an object.
    pub fn find_definition_for_key(&self, key: &Vec<String>) -> (r: Option<Position>)
        requires
            self.wf(),
        ensures
            r == self.definition_of(views(key@)),
    {
        let ghost segs = views(key@);
        if self.has_error {
            return None;
        }
        let doc = &self.nodes[self.root];
        if doc.children.len() == 0 {
            return None;
        }
        assert(node_ok(self.nodes@[self.root as int], self.nodes@.len() as int, self.source()));
        let top = doc.children[0];
        if !self.opens_object_at(top) {
            return None;
        }
        if key.len() == 0 {
            return None;
        }
        let mut cur: usize = top;
        let mut i: usize = 0;
        assert(segs.subrange(0, segs.len() as int) =~= segs);
        while i < key.len()
            invariant
                0 <= i < key@.len(),
                segs == views(key@),
                self.wf(),
                self.opens_object(cur as int),
                self.definition_of(segs) == self.definition_in(cur as int, segs.subrange(i as int, segs.len() as int)),
            decreases key@.len() - i,
        {
            let ghost rest = segs.subrange(i as int, segs.len() as int);
            assert(rest.drop_first() =~= segs.subrange(i + 1, segs.len() as int));
            assert(rest.len() == key@.len() - i);
            assert(rest[0] == key@[i as int]@);
            let seg = &key[i];
            assert(seg@ == rest[0]);
            let found = self.find_pair(cur, seg);
            match found {
                None => {
                    return None;
                },
                Some(p) => {
                    let pair = &self.nodes[p];
                    assert(node_ok(self.nodes@[p as int], self.nodes@.len() as int, self.source()));
                    if i + 1 == key.len() {
                        return match pair.key {
                            Some(k) => Some(self.nodes[k].start),
                            None => None,
                        };
                    }
                    match pair.value {
                        Some(v) => {
                            if !self.opens_object_at(v) {
                                return None;
                            }
                            cur = v;
                        },
                        None => {
                            return None;
                        },
                    }
                },
            }
            i = i + 1;
        }
        None
    }
}

} // verus!
