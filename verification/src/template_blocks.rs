//! Template inheritance on token streams: the parent a template names, the
//! blocks it defines, a template with its blocks filled in, and where another
//! template is to be inserted.
use vstd::prelude::*;
use crate::lexer::{copy_token, token_views, Literal, LiteralView, Token, TokenView};
use crate::text::push_text;

verus! {

/// Named blocks of tokens, each name once, in the order first defined.
pub type BlocksView = Seq<(Seq<char>, Seq<TokenView>)>;

/// The index of the block `name` from `k` on, if any.
pub open spec fn block_index(b: BlocksView, name: Seq<char>, k: int) -> Option<int>
    decreases b.len() - k,
{
    if k < 0 || k >= b.len() {
        None
    } else if b[k].0 == name {
        Some(k)
    } else {
        block_index(b, name, k + 1)
    }
}

/// The tokens of the block `name`, if there is one.
pub open spec fn block_get(b: BlocksView, name: Seq<char>) -> Option<Seq<TokenView>> {
    match block_index(b, name, 0) {
        Some(i) => Some(b[i].1),
        None => None,
    }
}

/// The blocks after setting `name` to `content`: replaced in place when
/// present, added last otherwise.
pub open spec fn block_insert(b: BlocksView, name: Seq<char>, content: Seq<TokenView>) -> BlocksView {
    match block_index(b, name, 0) {
        Some(i) => b.update(i, (name, content)),
        None => b.push((name, content)),
    }
}

/// No name occurs twice.
pub open spec fn distinct_names(b: BlocksView) -> bool {
    forall|i: int, j: int| 0 <= i < j < b.len() ==> b[i].0 != b[j].0
}

/// Where `block_index` finds a name, the name is there; where it finds none,
/// the name is absent from `k` on.
proof fn lemma_block_index(b: BlocksView, name: Seq<char>, k: int)
    requires
        0 <= k,
    ensures
        block_index(b, name, k) matches Some(i) ==> k <= i < b.len() && b[i].0 == name && forall|
            x: int,
        | k <= x < i ==> b[x].0 != name,
        block_index(b, name, k) is None ==> forall|j: int| k <= j < b.len() ==> b[j].0 != name,
        (exists|j: int| k <= j < b.len() && b[j].0 == name) ==> block_index(b, name, k) is Some,
    decreases b.len() - k,
{
    if k < b.len() {
        lemma_block_index(b, name, k + 1);
    }
}

/// Named blocks of tokens, each name once.
pub struct Blocks {
    names: Vec<String>,
    contents: Vec<Vec<Token>>,
}

impl View for Blocks {
    type V = BlocksView;

    closed spec fn view(&self) -> BlocksView {
        Seq::new(
            self.names@.len(),
            |i: int| (self.names@[i]@, token_views(self.contents@[i]@)),
        )
    }
}

impl Blocks {
    /// As many contents as names, and no name twice.
    #[verifier::type_invariant]
    closed spec fn wf(self) -> bool {
        &&& self.names@.len() == self.contents@.len()
        &&& forall|i: int, j: int|
            0 <= i < j < self.names@.len() ==> self.names@[i]@ != self.names@[j]@
    }

    /// No blocks.
    pub fn new() -> (b: Self)
        ensures
            b@ == Seq::<(Seq<char>, Seq<TokenView>)>::empty(),
    {
        let b = Blocks { names: Vec::new(), contents: Vec::new() };
        assert(b@ =~= Seq::<(Seq<char>, Seq<TokenView>)>::empty());
        b
    }

    /// The position of the block `name`, if any (see `block_index`).
    fn find(&self, name: &String) -> (r: Option<usize>)
        ensures
            r matches Some(i) ==> Some(i as int) == block_index(self@, name@, 0),
            r is None ==> block_index(self@, name@, 0) is None,
    {
        proof {
            use_type_invariant(self);
            lemma_block_index(self@, name@, 0);
        }
        let mut k: usize = 0;
        while k < self.names.len()
            invariant
                0 <= k <= self.names@.len(),
                self.names@.len() == self.contents@.len(),
                block_index(self@, name@, 0) == block_index(self@, name@, k as int),
            decreases self.names@.len() - k,
        {
            if self.names[k] == *name {
                return Some(k);
            }
            k = k + 1;
        }
        None
    }

    /// The tokens of the block `name`, if there is one.
    pub fn get(&self, name: &String) -> (r: Option<&Vec<Token>>)
        ensures
            match block_get(self@, name@) {
                Some(c) => r matches Some(v) && token_views(v@) == c,
                None => r is None,
            },
    {
        proof {
            use_type_invariant(self);
            lemma_block_index(self@, name@, 0);
        }
        match self.find(name) {
            Some(i) => Some(&self.contents[i]),
            None => None,
        }
    }

    /// Set the block `name` to `content` (see `block_insert`).
    pub fn insert(&mut self, name: String, content: Vec<Token>)
        ensures
            final(self)@ == block_insert(old(self)@, name@, token_views(content@)),
    {
        proof {
            use_type_invariant(&*self);
            lemma_block_index(self@, name@, 0);
        }
        let ghost content_view = token_views(content@);
        let found = self.find(&name);
        let mut taken = Blocks::new();
        std::mem::swap(self, &mut taken);
        proof {
            use_type_invariant(&taken);
        }
        let Blocks { names: mut names, contents: mut contents } = taken;
        match found {
            Some(i) => {
                contents.set(i, content);
            },
            None => {
                assert forall|j: int| 0 <= j < names@.len() implies names@[j]@ != name@ by {
                    assert(old(self)@[j].0 == names@[j]@);
                }
                names.push(name);
                contents.push(content);
            },
        }
        *self = Blocks { names, contents };
        assert(self@ =~= block_insert(old(self)@, name@, content_view));
    }
}

/// The name of the parent template: the string after the first `template`
/// keyword from `i` on; none when that keyword is not followed by a string.
pub open spec fn parent_name_from(ts: Seq<TokenView>, i: int) -> Option<Seq<char>>
    decreases ts.len() - i,
{
    if i < 0 || i >= ts.len() {
        None
    } else if ts[i] is TemplateKeyword {
        if i + 1 < ts.len() {
            match ts[i + 1] {
                TokenView::Object(LiteralView::Str(name)) => Some(name),
                _ => None,
            }
        } else {
            None
        }
    } else {
        parent_name_from(ts, i + 1)
    }
}

/// Extracts the parent template name if the template extends another: the
/// string after its first `template` keyword.
pub fn extract_parent_template_name(tokens: &[Token]) -> (r: Option<String>)
    ensures
        match parent_name_from(token_views(tokens@), 0) {
            Some(name) => r matches Some(s) && s@ == name,
            None => r is None,
        },
{
    let ghost ts = token_views(tokens@);
    let mut i: usize = 0;
    while i < tokens.len()
        invariant
            0 <= i <= tokens@.len(),
            ts == token_views(tokens@),
            parent_name_from(ts, 0) == parent_name_from(ts, i as int),
        decreases tokens@.len() - i,
    {
        if let Token::TemplateKeyword = &tokens[i] {
            if i + 1 < tokens.len() {
                if let Token::Object(Literal::Str(name)) = &tokens[i + 1] {
                    return Some(name.clone());
                }
            }
            return None;
        }
        i = i + 1;
    }
    None
}

/// The position of the `endblock` that closes a block whose tokens start at
/// `i`, with `depth` blocks open: nested `block`/`endblock` pairs are
/// skipped; none when the tokens run out first.
pub open spec fn block_end(ts: Seq<TokenView>, i: int, depth: int) -> Option<int>
    decreases ts.len() - i,
{
    if i < 0 || i >= ts.len() {
        None
    } else if ts[i] is BlockKeyword {
        block_end(ts, i + 1, depth + 1)
    } else if ts[i] is EndBlockKeyword {
        if depth <= 1 {
            Some(i)
        } else {
            block_end(ts, i + 1, depth - 1)
        }
    } else {
        block_end(ts, i + 1, depth)
    }
}

/// A closing `endblock` lies at or after the start, inside the tokens.
pub proof fn lemma_block_end_bounds(ts: Seq<TokenView>, i: int, depth: int)
    ensures
        block_end(ts, i, depth) matches Some(e) ==> i <= e < ts.len() && ts[e] is EndBlockKeyword,
    decreases ts.len() - i,
{
    if 0 <= i < ts.len() {
        lemma_block_end_bounds(ts, i + 1, depth + 1);
        lemma_block_end_bounds(ts, i + 1, depth - 1);
        lemma_block_end_bounds(ts, i + 1, depth);
    }
}

/// A `block` keyword at `i` followed by the block's name.
pub open spec fn names_block(ts: Seq<TokenView>, i: int) -> bool {
    0 <= i && i + 1 < ts.len() && ts[i] is BlockKeyword && ts[i + 1] is Identifier
}

/// Where the tokens of the block named at `i` start: after its name, and
/// after the end of the directive when it follows.
pub open spec fn block_start(ts: Seq<TokenView>, i: int) -> int {
    if i + 2 < ts.len() && ts[i + 2] is EndOfStatement {
        i + 3
    } else {
        i + 2
    }
}

/// The blocks defined from `i` on, added to `acc`: each `block name` up to
/// its closing `endblock` (a later block of the same name replaces an
/// earlier one); the error names a block that is not closed.
pub open spec fn blocks_from(ts: Seq<TokenView>, i: int, acc: BlocksView) -> Result<BlocksView, Seq<char>>
    decreases ts.len() - i,
{
    if i < 0 || i >= ts.len() {
        Ok(acc)
    } else if names_block(ts, i) {
        let name = ts[i + 1]->Identifier_0;
        let start = block_start(ts, i);
        proof {
            lemma_block_end_bounds(ts, start, 1);
        }
        match block_end(ts, start, 1) {
            None => Err("Unterminated block: "@ + name),
            Some(e) => blocks_from(ts, e + 1, block_insert(acc, name, ts.subrange(start, e))),
        }
    } else {
        blocks_from(ts, i + 1, acc)
    }
}

/// Copies of the tokens `start..end`.
fn copy_range(tokens: &[Token], start: usize, end: usize) -> (r: Vec<Token>)
    requires
        start <= end <= tokens@.len(),
    ensures
        token_views(r@) == token_views(tokens@).subrange(start as int, end as int),
{
    let mut r: Vec<Token> = Vec::new();
    let mut k = start;
    while k < end
        invariant
            start <= k <= end <= tokens@.len(),
            token_views(r@) == token_views(tokens@).subrange(start as int, k as int),
        decreases end - k,
    {
        let t = copy_token(&tokens[k]);
        let ghost before = r@;
        r.push(t);
        assert(token_views(r@) =~= token_views(before).push(tokens@[k as int]@));
        assert(token_views(r@) =~= token_views(tokens@).subrange(start as int, k + 1));
        k = k + 1;
    }
    r
}

/// The position of the closing `endblock` of a block whose tokens start at
/// `start` (see `block_end`).
fn find_block_end(tokens: &[Token], start: usize) -> (r: Option<usize>)
    requires
        start <= tokens@.len(),
    ensures
        match block_end(token_views(tokens@), start as int, 1) {
            Some(e) => r matches Some(x) && x as int == e,
            None => r is None,
        },
{
    let ghost ts = token_views(tokens@);
    let mut depth: u128 = 1;
    let mut end_pos = start;
    while end_pos < tokens.len()
        invariant
            start <= end_pos <= tokens@.len(),
            ts == token_views(tokens@),
            1 <= depth <= end_pos - start + 1,
            block_end(ts, start as int, 1) == block_end(ts, end_pos as int, depth as int),
        decreases tokens@.len() - end_pos,
    {
        match &tokens[end_pos] {
            Token::BlockKeyword => {
                depth = depth + 1;
            },
            Token::EndBlockKeyword => {
                if depth == 1 {
                    return Some(end_pos);
                }
                depth = depth - 1;
            },
            _ => {},
        }
        end_pos = end_pos + 1;
    }
    None
}

/// Extracts all blocks from a token stream (see `blocks_from`).
pub fn extract_blocks(tokens: &[Token]) -> (r: Result<Blocks, String>)
    ensures
        match blocks_from(token_views(tokens@), 0, Seq::empty()) {
            Ok(b) => r matches Ok(x) && x@ == b,
            Err(m) => r matches Err(s) && s@ == m,
        },
{
    let ghost ts = token_views(tokens@);
    let mut blocks = Blocks::new();
    let mut i: usize = 0;
    while i < tokens.len()
        invariant
            0 <= i <= tokens@.len(),
            ts == token_views(tokens@),
            blocks_from(ts, 0, Seq::empty()) == blocks_from(ts, i as int, blocks@),
        decreases tokens@.len() - i,
    {
        if let Token::BlockKeyword = &tokens[i] {
            if i + 1 < tokens.len() {
                if let Token::Identifier(name) = &tokens[i + 1] {
                    let block_name = name.clone();
                    let mut start = i + 2;
                    if start < tokens.len() {
                        if let Token::EndOfStatement = &tokens[start] {
                            start = start + 1;
                        }
                    }
                    proof {
                        lemma_block_end_bounds(ts, start as int, 1);
                    }
                    match find_block_end(tokens, start) {
                        None => {
                            let mut m = String::new();
                            push_text(&mut m, "Unterminated block: ");
                            push_text(&mut m, block_name.as_str());
                            return Err(m);
                        },
                        Some(end_pos) => {
                            let content = copy_range(tokens, start, end_pos);
                            blocks.insert(block_name, content);
                            i = end_pos + 1;
                            continue;
                        },
                    }
                }
            }
        }
        i = i + 1;
    }
    Ok(blocks)
}

/// The template from `i` on with its blocks filled in: `template name`
/// directives are dropped; each `block name` keeps its keyword, name and end
/// of directive, gets the tokens that `blocks` holds for the name (none when
/// it holds none), and keeps its closing `endblock`; its own tokens are
/// dropped. Other tokens stay as they are.
pub open spec fn with_blocks(ts: Seq<TokenView>, i: int, blocks: BlocksView) -> Seq<TokenView>
    decreases ts.len() - i,
{
    if i < 0 || i >= ts.len() {
        Seq::empty()
    } else if ts[i] is TemplateKeyword {
        if i + 2 >= ts.len() {
            Seq::empty()
        } else {
            with_blocks(ts, i + 2, blocks)
        }
    } else if names_block(ts, i) {
        let name = ts[i + 1]->Identifier_0;
        let start = block_start(ts, i);
        let eos: Seq<TokenView> = if start == i + 3 {
            seq![ts[i + 2]]
        } else {
            Seq::empty()
        };
        let content = match block_get(blocks, name) {
            Some(c) => c,
            None => Seq::empty(),
        };
        let head = seq![ts[i], ts[i + 1]] + eos + content;
        proof {
            lemma_block_end_bounds(ts, start, 1);
        }
        match block_end(ts, start, 1) {
            Some(e) => head + seq![ts[e]] + with_blocks(ts, e + 1, blocks),
            None => head,
        }
    } else {
        seq![ts[i]] + with_blocks(ts, i + 1, blocks)
    }
}

/// Creates the template with all blocks filled in from `blocks` (see
/// `with_blocks`).
pub fn create_template_with_blocks(template_tokens: &[Token], blocks: &Blocks) -> (r: Result<Vec<Token>, String>)
    ensures
        r matches Ok(v) && token_views(v@) == with_blocks(token_views(template_tokens@), 0, blocks@),
{
    let ghost ts = token_views(template_tokens@);
    let mut result: Vec<Token> = Vec::new();
    let mut i: usize = 0;
    while i < template_tokens.len()
        invariant
            0 <= i <= template_tokens@.len(),
            ts == token_views(template_tokens@),
            token_views(result@) + with_blocks(ts, i as int, blocks@) == with_blocks(ts, 0, blocks@),
        decreases template_tokens@.len() - i,
    {
        let ghost before = result@;
        let ghost at = i as int;
        if let Token::TemplateKeyword = &template_tokens[i] {
            if template_tokens.len() - i <= 2 {
                i = template_tokens.len();
            } else {
                i = i + 2;
            }
            assert(token_views(result@) + with_blocks(ts, i as int, blocks@) =~= token_views(before)
                + with_blocks(ts, at, blocks@));
            continue;
        }
        let is_block_name = match &template_tokens[i] {
            Token::BlockKeyword => i + 1 < template_tokens.len() && match &template_tokens[i + 1] {
                Token::Identifier(_) => true,
                _ => false,
            },
            _ => false,
        };
        if !is_block_name {
            result.push(copy_token(&template_tokens[i]));
            assert(token_views(result@) =~= token_views(before).push(ts[at]));
            assert(with_blocks(ts, at, blocks@) == seq![ts[at]] + with_blocks(ts, at + 1, blocks@));
            assert(token_views(result@) + with_blocks(ts, at + 1, blocks@) =~= token_views(before)
                + with_blocks(ts, at, blocks@));
            i = i + 1;
            continue;
        }
        let ghost name_v = ts[at + 1]->Identifier_0;
        let ghost content_v = match block_get(blocks@, name_v) {
            Some(c) => c,
            None => Seq::<TokenView>::empty(),
        };
        result.push(copy_token(&template_tokens[i]));
        result.push(copy_token(&template_tokens[i + 1]));
        assert(token_views(result@) =~= token_views(before) + seq![ts[at], ts[at + 1]]);
        let mut start = i + 2;
        if start < template_tokens.len() {
            if let Token::EndOfStatement = &template_tokens[start] {
                let ghost b1 = result@;
                result.push(copy_token(&template_tokens[start]));
                assert(token_views(result@) =~= token_views(b1).push(ts[at + 2]));
                start = start + 1;
            }
        }
        let ghost eos_v: Seq<TokenView> = if start == at + 3 {
            seq![ts[at + 2]]
        } else {
            Seq::empty()
        };
        assert(start as int == block_start(ts, at));
        assert(token_views(result@) =~= token_views(before) + seq![ts[at], ts[at + 1]] + eos_v);
        let ghost head_before = result@;
        if let Token::Identifier(name) = &template_tokens[i + 1] {
            assert(name@ == name_v);
            match blocks.get(name) {
                Some(block_tokens) => {
                    let mut k: usize = 0;
                    while k < block_tokens.len()
                        invariant
                            0 <= k <= block_tokens@.len(),
                            token_views(result@) == token_views(head_before) + token_views(
                                block_tokens@,
                            ).take(k as int),
                        decreases block_tokens@.len() - k,
                    {
                        let ghost b2 = result@;
                        result.push(copy_token(&block_tokens[k]));
                        assert(token_views(result@) =~= token_views(b2).push(
                            block_tokens@[k as int]@,
                        ));
                        assert(token_views(block_tokens@).take(k + 1) =~= token_views(
                            block_tokens@,
                        ).take(k as int).push(block_tokens@[k as int]@));
                        k = k + 1;
                    }
                    assert(token_views(block_tokens@).take(block_tokens@.len() as int)
                        =~= token_views(block_tokens@));
                },
                None => {
                    assert(token_views(result@) =~= token_views(head_before) + content_v);
                },
            }
        }
        assert(token_views(result@) == token_views(head_before) + content_v);
        proof {
            lemma_block_end_bounds(ts, start as int, 1);
        }
        match find_block_end(template_tokens, start) {
            Some(e) => {
                let ghost b3 = result@;
                result.push(copy_token(&template_tokens[e]));
                assert(token_views(result@) =~= token_views(b3).push(ts[e as int]));
                assert(with_blocks(ts, at, blocks@) == seq![ts[at], ts[at + 1]] + eos_v + content_v
                    + seq![ts[e as int]] + with_blocks(ts, e + 1, blocks@));
                assert(token_views(result@) + with_blocks(ts, e + 1, blocks@) =~= token_views(before)
                    + with_blocks(ts, at, blocks@));
                i = e + 1;
            },
            None => {
                assert(with_blocks(ts, at, blocks@) == seq![ts[at], ts[at + 1]] + eos_v + content_v);
                assert(token_views(result@) =~= token_views(before) + with_blocks(ts, at, blocks@));
                i = template_tokens.len();
            },
        }
    }
    Ok(result)
}

/// Reading a block after setting it gives what was set; the other blocks
/// stay as they were.
pub proof fn law_block_get_after_insert(
    b: BlocksView,
    name: Seq<char>,
    content: Seq<TokenView>,
    other: Seq<char>,
)
    ensures
        block_get(block_insert(b, name, content), name) == Some(content),
        other != name ==> block_get(block_insert(b, name, content), other) == block_get(b, other),
{
    let r = block_insert(b, name, content);
    lemma_block_index(b, name, 0);
    lemma_block_index(b, other, 0);
    lemma_block_index(r, name, 0);
    lemma_block_index(r, other, 0);
    match block_index(b, name, 0) {
        Some(i) => {
            assert(r[i].0 == name);
            if other != name {
                match block_index(b, other, 0) {
                    Some(j) => {
                        assert(r[j] == b[j]);
                        assert forall|x: int| 0 <= x < j implies r[x].0 != other by {
                            if x != i {
                                assert(r[x] == b[x]);
                            }
                        }
                        lemma_first_index(r, other, j);
                    },
                    None => {
                        assert forall|x: int| 0 <= x < r.len() implies r[x].0 != other by {
                            if x != i {
                                assert(r[x] == b[x]);
                            }
                        }
                    },
                }
            }
            assert forall|x: int| 0 <= x < i implies r[x].0 != name by {
                assert(r[x] == b[x]);
            }
            lemma_first_index(r, name, i);
        },
        None => {
            assert(r[b.len() as int].0 == name);
            assert forall|x: int| 0 <= x < b.len() implies r[x].0 != name by {
                assert(r[x] == b[x]);
            }
            lemma_first_index(r, name, b.len() as int);
            if other != name {
                match block_index(b, other, 0) {
                    Some(j) => {
                        assert forall|x: int| 0 <= x < j implies r[x].0 != other by {
                            assert(r[x] == b[x]);
                        }
                        assert(r[j] == b[j]);
                        lemma_first_index(r, other, j);
                    },
                    None => {
                        assert forall|x: int| 0 <= x < r.len() implies r[x].0 != other by {
                            if x < b.len() {
                                assert(r[x] == b[x]);
                            }
                        }
                    },
                }
            }
        },
    }
}

/// The first index holding `name` is what `block_index` finds.
proof fn lemma_first_index(b: BlocksView, name: Seq<char>, i: int)
    requires
        0 <= i < b.len(),
        b[i].0 == name,
        forall|x: int| 0 <= x < i ==> b[x].0 != name,
    ensures
        block_index(b, name, 0) == Some(i),
{
    assert forall|k: int| 0 <= k <= i implies block_index(b, name, k) == Some(i) by {
        lemma_first_index_from(b, name, i, k);
    }
}

/// From any `k` up to the first index holding `name`, that index is found.
proof fn lemma_first_index_from(b: BlocksView, name: Seq<char>, i: int, k: int)
    requires
        0 <= k <= i < b.len(),
        b[i].0 == name,
        forall|x: int| 0 <= x < i ==> b[x].0 != name,
    ensures
        block_index(b, name, k) == Some(i),
    decreases i - k,
{
    if k < i {
        lemma_first_index_from(b, name, i, k + 1);
    }
}

/// The blocks of a template that extends a parent: the parent's blocks,
/// each one that the child defines replaced by the child's. A block the
/// child defines reads as the child's; any other as the parent's.
pub fn merge_blocks(parent: Blocks, child: &Blocks) -> (r: Blocks)
    ensures
        forall|name: Seq<char>| #[trigger]
            block_get(r@, name) == match block_get(child@, name) {
                Some(c) => Some(c),
                None => block_get(parent@, name),
            },
{
    proof {
        use_type_invariant(child);
    }
    let mut merged = parent;
    let mut k: usize = 0;
    while k < child.names.len()
        invariant
            0 <= k <= child.names@.len(),
            child.names@.len() == child.contents@.len(),
            child@.len() == child.names@.len(),
            distinct_names(child@),
            forall|name: Seq<char>| #[trigger]
                block_get(merged@, name) == match block_get(child@.take(k as int), name) {
                    Some(c) => Some(c),
                    None => block_get(parent@, name),
                },
        decreases child.names@.len() - k,
    {
        let name = child.names[k].clone();
        let content = copy_range(child.contents[k].as_slice(), 0, child.contents[k].len());
        let ghost before = merged@;
        proof {
            assert(child.contents[k as int]@.subrange(0, child.contents[k as int]@.len() as int)
                =~= child.contents[k as int]@);
        }
        merged.insert(name, content);
        proof {
            let prefix = child@.take(k as int);
            let next = child@.take(k + 1);
            assert(next =~= prefix.push(child@[k as int]));
            assert(child@[k as int].0 == name@);
            assert(child@[k as int].1 == token_views(content@));
            assert forall|n: Seq<char>| #[trigger]
                block_get(merged@, n) == match block_get(next, n) {
                    Some(c) => Some(c),
                    None => block_get(parent@, n),
                } by {
                law_block_get_after_insert(before, name@, token_views(content@), n);
                lemma_block_index(prefix, n, 0);
                lemma_block_index(next, n, 0);
                if n == name@ {
                    assert forall|x: int| 0 <= x < k implies prefix[x].0 != n by {
                        assert(prefix[x] == child@[x]);
                    }
                    lemma_first_index(next, n, k as int);
                } else {
                    match block_index(prefix, n, 0) {
                        Some(j) => {
                            assert forall|x: int| 0 <= x < j implies next[x].0 != n by {
                                assert(next[x] == prefix[x]);
                            }
                            lemma_first_index(next, n, j);
                        },
                        None => {
                            assert forall|x: int| 0 <= x < next.len() implies next[x].0 != n by {
                                if x < k {
                                    assert(next[x] == prefix[x]);
                                }
                            }
                        },
                    }
                }
            }
        }
        k = k + 1;
    }
    assert(child@.take(child@.len() as int) =~= child@);
    merged
}

/// The first end of a directive at or after `j`.
pub open spec fn statement_end_from(ts: Seq<TokenView>, j: int) -> Option<int>
    decreases ts.len() - j,
{
    if j < 0 || j >= ts.len() {
        None
    } else if ts[j] is EndOfStatement {
        Some(j)
    } else {
        statement_end_from(ts, j + 1)
    }
}

/// The next insertion from `i` on: an `insert` keyword followed by the name
/// (a string) of the template to insert, and the end of its directive, after
/// which the template's tokens go. An `insert` whose directive never ends is
/// passed over.
pub open spec fn next_insertion(ts: Seq<TokenView>, i: int) -> Option<(Seq<char>, int)>
    decreases ts.len() - i,
{
    if i < 0 || i >= ts.len() {
        None
    } else if ts[i] is InsertKeyword && i + 1 < ts.len() && ts[i + 1] is Object && ts[i
        + 1]->Object_0 is Str {
        match statement_end_from(ts, i + 2) {
            Some(j) => Some((ts[i + 1]->Object_0->Str_0, j)),
            None => next_insertion(ts, i + 1),
        }
    } else {
        next_insertion(ts, i + 1)
    }
}

/// The first end of a directive at or after `j` (see
/// `statement_end_from`).
fn find_statement_end(tokens: &[Token], j: usize) -> (r: Option<usize>)
    ensures
        match statement_end_from(token_views(tokens@), j as int) {
            Some(e) => r matches Some(x) && x as int == e,
            None => r is None,
        },
{
    let ghost ts = token_views(tokens@);
    let mut k = j;
    while k < tokens.len()
        invariant
            j <= k,
            ts == token_views(tokens@),
            statement_end_from(ts, j as int) == statement_end_from(ts, k as int),
        decreases tokens@.len() - k,
    {
        if let Token::EndOfStatement = &tokens[k] {
            return Some(k);
        }
        k = k + 1;
    }
    None
}

/// Where the next template is to be inserted, from `from` on: its name and
/// the position of the end of the `insert` directive (see `next_insertion`).
pub fn find_insertion(tokens: &[Token], from: usize) -> (r: Option<(String, usize)>)
    ensures
        match next_insertion(token_views(tokens@), from as int) {
            Some((name, j)) => r matches Some((s, k)) && s@ == name && k == j,
            None => r is None,
        },
{
    let ghost ts = token_views(tokens@);
    let mut i = from;
    while i < tokens.len()
        invariant
            from <= i,
            ts == token_views(tokens@),
            next_insertion(ts, from as int) == next_insertion(ts, i as int),
        decreases tokens@.len() - i,
    {
        if let Token::InsertKeyword = &tokens[i] {
            if i + 1 < tokens.len() {
                if let Token::Object(Literal::Str(name)) = &tokens[i + 1] {
                    assert(ts[i as int] == tokens@[i as int]@);
                    assert(ts[i + 1] == tokens@[i + 1]@);
                    if let Some(j) = find_statement_end(tokens, i + 2) {
                        return Some((name.clone(), j));
                    }
                }
            }
        }
        i = i + 1;
    }
    None
}

/// A statement whose body runs up to a closing keyword: `if` ... `endif`,
/// `for` ... `endfor`, `while` ... `endwhile`.
#[derive(Debug, Clone, Copy, PartialEq, Eq, Structural)]
pub enum NestedStatement {
    If,
    For,
    While,
}

/// `t` opens a statement of kind `k`.
pub open spec fn opens_statement(t: TokenView, k: NestedStatement) -> bool {
    match k {
        NestedStatement::If => t is IfKeyword,
        NestedStatement::For => t is ForKeyword,
        NestedStatement::While => t is WhileKeyword,
    }
}

/// `t` closes a statement of kind `k`.
pub open spec fn closes_statement(t: TokenView, k: NestedStatement) -> bool {
    match k {
        NestedStatement::If => t is EndIfKeyword,
        NestedStatement::For => t is EndForKeyword,
        NestedStatement::While => t is EndWhileKeyword,
    }
}

/// Scanning from `pos` with `depth` statements of kind `k` open: each token
/// that opens one adds to the depth, each that closes one takes from it; the
/// scan stops past the token that brings the depth to zero, or at the end
/// of the tokens.
pub open spec fn matching_end_from(toks: Seq<TokenView>, pos: int, depth: int, k: NestedStatement) -> int
    decreases toks.len() - pos,
{
    if pos < 0 || pos >= toks.len() || depth <= 0 {
        pos
    } else {
        let d = if opens_statement(toks[pos], k) {
            depth + 1
        } else if closes_statement(toks[pos], k) {
            depth - 1
        } else {
            depth
        };
        matching_end_from(toks, pos + 1, d, k)
    }
}

/// Where the statement of kind `kind` whose body starts at `from` ends: the
/// position just past its closing keyword, statements of the same kind nested
/// in it counted; the end of the tokens when it is never closed (see
/// `matching_end_from`).
pub fn find_matching_end(tokens: &[Token], from: usize, kind: NestedStatement) -> (end: usize)
    ensures
        end == matching_end_from(token_views(tokens@), from as int, 1, kind),
{
    let ghost ts = token_views(tokens@);
    let mut pos = from;
    let mut depth: u128 = 1;
    while pos < tokens.len() && depth > 0
        invariant
            from <= pos,
            ts == token_views(tokens@),
            depth <= pos - from + 1,
            matching_end_from(ts, from as int, 1, kind) == matching_end_from(ts, pos as int, depth as int, kind),
        decreases tokens@.len() - pos,
    {
        assert(ts[pos as int] == tokens@[pos as int]@);
        let opens = match (kind, &tokens[pos]) {
            (NestedStatement::If, Token::IfKeyword) => true,
            (NestedStatement::For, Token::ForKeyword) => true,
            (NestedStatement::While, Token::WhileKeyword) => true,
            _ => false,
        };
        let closes = match (kind, &tokens[pos]) {
            (NestedStatement::If, Token::EndIfKeyword) => true,
            (NestedStatement::For, Token::EndForKeyword) => true,
            (NestedStatement::While, Token::EndWhileKeyword) => true,
            _ => false,
        };
        if opens {
            depth = depth + 1;
        } else if closes {
            depth = depth - 1;
        }
        pos = pos + 1;
    }
    pos
}

/// What the first pass of the template compiler learns: the name of the
/// template it extends, its blocks, and whether it only exports.
pub struct TemplateMetadata {
    /// The string after `template`, if any.
    pub template_name: Option<String>,
    /// The blocks, by name.
    pub blocks: Blocks,
    /// Whether an `export` keyword occurs.
    pub export_mode: bool,
}

/// The mathematical value of the first pass's findings.
pub struct MetadataView {
    pub template_name: Option<Seq<char>>,
    pub blocks: BlocksView,
    pub export_mode: bool,
}

/// The first pass of the template compiler from `pos` on, having found
/// `found` so far: a `template` keyword takes the string after it as the
/// template's name; a `block name` directive takes its tokens up to the
/// matching `endblock` as the block `name`; an `export` keyword sets export
/// mode; every other token is passed over. After each step an end of
/// directive is passed over. The errors: no string after `template`, no name
/// after `block`, a block that is not closed.
pub open spec fn metadata_from(ts: Seq<TokenView>, pos: int, found: MetadataView) -> Result<
    MetadataView,
    Seq<char>,
>
    decreases ts.len() - pos,
{
    if pos < 0 || pos >= ts.len() {
        Ok(found)
    } else {
        let step: Result<(MetadataView, int), Seq<char>> = if ts[pos] is TemplateKeyword {
            if pos + 1 < ts.len() && ts[pos + 1] is Object && ts[pos + 1]->Object_0 is Str {
                Ok(
                    (
                        MetadataView {
                            template_name: Some(ts[pos + 1]->Object_0->Str_0),
                            ..found
                        },
                        pos + 2,
                    ),
                )
            } else {
                Err("Expected string after template keyword"@)
            }
        } else if ts[pos] is BlockKeyword {
            if pos + 1 < ts.len() && ts[pos + 1] is Identifier {
                let name = ts[pos + 1]->Identifier_0;
                let start = block_start(ts, pos);
                match block_end(ts, start, 1) {
                    None => Err("Unterminated block: "@ + name),
                    Some(e) => Ok(
                        (
                            MetadataView {
                                blocks: block_insert(found.blocks, name, ts.subrange(start, e)),
                                ..found
                            },
                            e + 1,
                        ),
                    ),
                }
            } else {
                Err("Expected identifier after block keyword"@)
            }
        } else if ts[pos] is ExportKeyword {
            Ok((MetadataView { export_mode: true, ..found }, pos + 1))
        } else {
            Ok((found, pos + 1))
        };
        match step {
            Err(m) => Err(m),
            Ok((next, p)) => {
                proof {
                    lemma_block_end_bounds(ts, block_start(ts, pos), 1);
                }
                if pos < p && p < ts.len() && ts[p] is EndOfStatement {
                    metadata_from(ts, p + 1, next)
                } else if pos < p {
                    metadata_from(ts, p, next)
                } else {
                    Ok(next)
                }
            },
        }
    }
}

/// The first pass of the template compiler (see `metadata_from`).
pub fn collect_blocks_and_metadata(tokens: &[Token]) -> (r: Result<TemplateMetadata, String>)
    ensures
        match metadata_from(
            token_views(tokens@),
            0,
            MetadataView { template_name: None, blocks: Seq::empty(), export_mode: false },
        ) {
            Ok(m) => r matches Ok(x) && m == (MetadataView {
                template_name: match x.template_name {
                    Some(s) => Some(s@),
                    None => None,
                },
                blocks: x.blocks@,
                export_mode: x.export_mode,
            }),
            Err(msg) => r matches Err(s) && s@ == msg,
        },
{
    let ghost ts = token_views(tokens@);
    let mut template_name: Option<String> = None;
    let mut blocks = Blocks::new();
    let mut export_mode = false;
    let mut pos: usize = 0;
    while pos < tokens.len()
        invariant
            0 <= pos <= tokens@.len(),
            ts == token_views(tokens@),
            metadata_from(
                ts,
                0,
                MetadataView { template_name: None, blocks: Seq::empty(), export_mode: false },
            ) == metadata_from(
                ts,
                pos as int,
                MetadataView {
                    template_name: match template_name {
                        Some(s) => Some(s@),
                        None => None,
                    },
                    blocks: blocks@,
                    export_mode,
                },
            ),
        decreases tokens@.len() - pos,
    {
        let ghost at = pos as int;
        proof {
            lemma_block_end_bounds(ts, block_start(ts, at), 1);
        }
        match &tokens[pos] {
            Token::TemplateKeyword => {
                if pos + 1 < tokens.len() {
                    if let Token::Object(Literal::Str(name)) = &tokens[pos + 1] {
                        template_name = Some(name.clone());
                        pos = pos + 2;
                    } else {
                        return Err(text_of("Expected string after template keyword"));
                    }
                } else {
                    return Err(text_of("Expected string after template keyword"));
                }
            },
            Token::BlockKeyword => {
                if pos + 1 < tokens.len() {
                    if let Token::Identifier(name) = &tokens[pos + 1] {
                        let mut start = pos + 2;
                        if start < tokens.len() {
                            if let Token::EndOfStatement = &tokens[start] {
                                start = start + 1;
                            }
                        }
                        match find_block_end(tokens, start) {
                            None => {
                                let mut m = String::new();
                                push_text(&mut m, "Unterminated block: ");
                                push_text(&mut m, name.as_str());
                                return Err(m);
                            },
                            Some(e) => {
                                let content = copy_range(tokens, start, e);
                                blocks.insert(name.clone(), content);
                                pos = e + 1;
                            },
                        }
                    } else {
                        return Err(text_of("Expected identifier after block keyword"));
                    }
                } else {
                    return Err(text_of("Expected identifier after block keyword"));
                }
            },
            Token::ExportKeyword => {
                export_mode = true;
                pos = pos + 1;
            },
            _ => {
                pos = pos + 1;
            },
        }
        if pos < tokens.len() {
            if let Token::EndOfStatement = &tokens[pos] {
                pos = pos + 1;
            }
        }
    }
    Ok(TemplateMetadata { template_name, blocks, export_mode })
}

/// A `String` holding `s`.
fn text_of(s: &str) -> (r: String)
    ensures
        r@ == s@,
{
    let mut r = String::new();
    push_text(&mut r, s);
    r
}

} // verus!
