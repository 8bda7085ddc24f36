//! The analysed token as the document session sees it: its character range,
//! its morphemes, the expressions that cover it and its display class.
use vstd::prelude::*;

verus! {

#[derive(Debug)]
pub struct Morpheme {
    pub surface: String,
    pub char_range: (usize, usize),
}

#[derive(Debug)]
pub struct Bunsetsu {
    pub surface: String,
    pub morphemes: Vec<Morpheme>,
    pub char_range: (usize, usize),
}

#[derive(Debug)]
pub struct TokenExpression {
    pub expression_id: String,
    pub char_range: (usize, usize),
    pub token_range: (usize, usize),
}

#[derive(Debug)]
pub struct AnnotatedToken {
    pub bunsetsu: Bunsetsu,
    pub is_selected: bool,
    pub is_known: bool,
    pub expressions: Vec<TokenExpression>,
    pub display_class: String,
}

pub ghost struct MorphemeView {
    pub surface: Seq<char>,
    pub char_range: (usize, usize),
}

pub ghost struct ExpressionView {
    pub expression_id: Seq<char>,
    pub char_range: (usize, usize),
    pub token_range: (usize, usize),
}

/// The mathematical value of a token.
pub ghost struct TokenView {
    pub surface: Seq<char>,
    pub morphemes: Seq<MorphemeView>,
    pub char_range: (usize, usize),
    pub is_selected: bool,
    pub is_known: bool,
    pub expressions: Seq<ExpressionView>,
    pub display_class: Seq<char>,
}

impl View for Morpheme {
    type V = MorphemeView;

    open spec fn view(&self) -> MorphemeView {
        MorphemeView { surface: self.surface@, char_range: self.char_range }
    }
}

impl View for TokenExpression {
    type V = ExpressionView;

    open spec fn view(&self) -> ExpressionView {
        ExpressionView {
            expression_id: self.expression_id@,
            char_range: self.char_range,
            token_range: self.token_range,
        }
    }
}

pub open spec fn morphemes_view(s: Seq<Morpheme>) -> Seq<MorphemeView> {
    s.map_values(|m: Morpheme| m@)
}

pub open spec fn expressions_view(s: Seq<TokenExpression>) -> Seq<ExpressionView> {
    s.map_values(|e: TokenExpression| e@)
}

impl View for AnnotatedToken {
    type V = TokenView;

    open spec fn view(&self) -> TokenView {
        TokenView {
            surface: self.bunsetsu.surface@,
            morphemes: morphemes_view(self.bunsetsu.morphemes@),
            char_range: self.bunsetsu.char_range,
            is_selected: self.is_selected,
            is_known: self.is_known,
            expressions: expressions_view(self.expressions@),
            display_class: self.display_class@,
        }
    }
}

/// The views of a sequence of tokens.
pub open spec fn tokens_view(s: Seq<AnnotatedToken>) -> Seq<TokenView> {
    s.map_values(|t: AnnotatedToken| t@)
}

/// The views of a sequence of strings.
pub open spec fn strings_view(s: Seq<String>) -> Seq<Seq<char>> {
    s.map_values(|t: String| t@)
}

impl Morpheme {
    pub fn copy(&self) -> (r: Morpheme)
        ensures
            r@ == self@,
    {
        Morpheme { surface: self.surface.clone(), char_range: self.char_range }
    }
}

impl TokenExpression {
    pub fn copy(&self) -> (r: TokenExpression)
        ensures
            r@ == self@,
    {
        TokenExpression {
            expression_id: self.expression_id.clone(),
            char_range: self.char_range,
            token_range: self.token_range,
        }
    }
}

fn copy_morphemes(v: &Vec<Morpheme>) -> (r: Vec<Morpheme>)
    ensures
        morphemes_view(r@) == morphemes_view(v@),
{
    let mut r: Vec<Morpheme> = Vec::new();
    for i in 0..v.len()
        invariant
            r@.len() == i,
            forall|k: int| 0 <= k < i ==> #[trigger] r@[k]@ == v@[k]@,
    {
        r.push(v[i].copy());
    }
    assert(morphemes_view(r@) =~= morphemes_view(v@));
    r
}

pub fn copy_expression_list(v: &Vec<TokenExpression>) -> (r: Vec<TokenExpression>)
    ensures
        expressions_view(r@) == expressions_view(v@),
{
    let mut r: Vec<TokenExpression> = Vec::new();
    for i in 0..v.len()
        invariant
            r@.len() == i,
            forall|k: int| 0 <= k < i ==> #[trigger] r@[k]@ == v@[k]@,
    {
        r.push(v[i].copy());
    }
    assert(expressions_view(r@) =~= expressions_view(v@));
    r
}

impl AnnotatedToken {
    /// An equal, independent copy of the token.
    pub fn copy(&self) -> (r: AnnotatedToken)
        ensures
            r@ == self@,
    {
        AnnotatedToken {
            bunsetsu: Bunsetsu {
                surface: self.bunsetsu.surface.clone(),
                morphemes: copy_morphemes(&self.bunsetsu.morphemes),
                char_range: self.bunsetsu.char_range,
            },
            is_selected: self.is_selected,
            is_known: self.is_known,
            expressions: copy_expression_list(&self.expressions),
            display_class: self.display_class.clone(),
        }
    }
}

impl Clone for Morpheme {
    fn clone(&self) -> (r: Morpheme)
        ensures
            r@ == self@,
    {
        self.copy()
    }
}

impl Clone for Bunsetsu {
    fn clone(&self) -> (r: Bunsetsu)
        ensures
            r.surface@ == self.surface@,
            morphemes_view(r.morphemes@) == morphemes_view(self.morphemes@),
            r.char_range == self.char_range,
    {
        Bunsetsu {
            surface: self.surface.clone(),
            morphemes: copy_morphemes(&self.morphemes),
            char_range: self.char_range,
        }
    }
}

impl Clone for TokenExpression {
    fn clone(&self) -> (r: TokenExpression)
        ensures
            r@ == self@,
    {
        self.copy()
    }
}

impl Clone for AnnotatedToken {
    fn clone(&self) -> (r: AnnotatedToken)
        ensures
            r@ == self@,
    {
        self.copy()
    }
}

/// An equal copy of a sequence of tokens.
pub fn copy_tokens(v: &[AnnotatedToken]) -> (r: Vec<AnnotatedToken>)
    ensures
        tokens_view(r@) == tokens_view(v@),
{
    let mut r: Vec<AnnotatedToken> = Vec::new();
    for i in 0..v.len()
        invariant
            r@.len() == i,
            forall|k: int| 0 <= k < i ==> #[trigger] r@[k]@ == v@[k]@,
    {
        r.push(v[i].copy());
    }
    assert(tokens_view(r@) =~= tokens_view(v@));
    r
}

/// An equal copy of a sequence of strings.
pub fn copy_strings(v: &[String]) -> (r: Vec<String>)
    ensures
        strings_view(r@) == strings_view(v@),
{
    let mut r: Vec<String> = Vec::new();
    for i in 0..v.len()
        invariant
            r@.len() == i,
            forall|k: int| 0 <= k < i ==> #[trigger] r@[k]@ == v@[k]@,
    {
        r.push(v[i].clone());
    }
    assert(strings_view(r@) =~= strings_view(v@));
    r
}

} // verus!
