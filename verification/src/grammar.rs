use crate::text::same_text;
use lazy_regex::Regex;
use vstd::prelude::*;

verus! {

/// The lexical categories.
#[derive(Debug, Clone, Copy, Eq, PartialEq, Structural)]
pub enum TokenName {
    /// End of input; closes every token sequence.
    EOF,
    // Ghost kinds: a rule may skip them, and may still ask for them by name.
    /// `\n\t{x}`, deeper than the current indentation.
    Indent,
    /// `\n`
    Newline,
    /// Blanks.
    Whitespace,
    /// `### ... ###`
    BlockComment,
    /// `# ...`
    Comment,
    /// `hello`, `foo_bar`, `Baz`
    Identifier,
    /// `->`
    ThinArrow,
    /// `|>`
    Pipe,
    /// `;`
    Semicolon,
    /// `,`
    Comma,
    /// `%%test`
    ScopeAnnotation,
    /// `#%define`
    BranchAnnotation,
    /// `42`, `0xFA`, `0b0110_1100`
    IntLiteral,
    /// `"..."`
    StringLiteral,
    /// `true`, `false`, `yes`, `no`, `0b`, `1b`
    BooleanLiteral,
    /// `(`
    ParenthesisOpen,
    /// `)`
    ParenthesisClose,
    /// `[`
    SqBracketsOpen,
    /// `]`
    SqBracketsClose,
    /// `{`
    CrBracketsOpen,
    /// `}`
    CrBracketsClose,
    /// `<`
    AgBracketsOpen,
    /// `>`
    AgBracketsClose,
    /// `...`
    Reticences,
    /// `..`
    ExclusiveReticences,
    /// `:`
    Colon,
    /// `addrof`
    OpAddrof,
    /// `typeof`
    OpTypeof,
    /// `type`
    OpType,
    /// `value`
    OpValue,
    /// `is`
    OpIs,
    /// `xis`
    OpXis,
    /// `and`
    OpAnd,
    /// `or`
    OpOr,
    /// `not`
    OpNot,
    /// `|`
    OpPipe,
    /// `&`
    OpAmpersand,
    /// `+`
    OpPlus,
    /// `-`
    OpDash,
    /// `*`
    OpAsterisk,
    /// `/`
    OpForwardSlash,
    /// `//`
    OpDoubleForwardSlash,
    /// `%`
    OpPercent,
    /// `=`
    OpEqSign,
}

/// A token: its kind and the piece of the source it was cut from. Only the closing `EOF`
/// token has no text.
#[derive(Debug, Clone, Copy, PartialEq, Eq)]
pub struct Token<'a> {
    pub name: TokenName,
    pub str_content: Option<&'a str>,
}

/// A token as the model sees it: its kind and the characters of its text.
pub struct TokenView {
    pub name: TokenName,
    pub text: Option<Seq<char>>,
}

impl<'a> View for Token<'a> {
    type V = TokenView;

    open spec fn view(&self) -> TokenView {
        TokenView {
            name: self.name,
            text: match self.str_content {
                Some(s) => Some(s@),
                None => None,
            },
        }
    }
}

/// The views of a token sequence, in order.
pub open spec fn tokens_view(tokens: Seq<Token>) -> Seq<TokenView> {
    Seq::new(tokens.len(), |i: int| tokens[i]@)
}

/// A token kind with the expression that recognizes it at the start of a string.
#[derive(Debug)]
pub struct TokenMatcher {
    pub regex: Regex,
    pub name: TokenName,
}

/// One unit of a rule, as the model sees it.
pub enum Fragment {
    /// One token of the given kind and, where a text is given, with exactly that text.
    SingleToken(TokenName, Option<Seq<char>>),
    /// Ordered alternation: the first case that fits.
    Disjunction(Seq<Seq<Fragment>>),
    /// Every case must fit at the same place; the last one is kept.
    Conjunction(Seq<Seq<Fragment>>),
    /// The rule of that name.
    Nest(Seq<char>),
    /// The sequence, or nothing.
    Optional(Seq<Fragment>),
    /// The sequence, once or more.
    Many(Seq<Fragment>),
    /// The sequence, any number of times.
    OptionalMany(Seq<Fragment>),
}

/// One unit of a rule. A rule is a sequence of them.
#[derive(Debug)]
pub enum ParseRule<'a> {
    /// One token of the given kind and, where a text is given, with exactly that text.
    SingleToken(TokenName, Option<&'a str>),
    /// Ordered alternation: the first case that fits.
    Disjunction(Vec<Vec<ParseRule<'a>>>),
    /// Every case must fit at the same place; the last one is kept.
    Conjunction(Vec<Vec<ParseRule<'a>>>),
    /// The rule of that name.
    Nest(&'static str),
    /// The sequence, or nothing.
    Optional(Vec<ParseRule<'a>>),
    /// The sequence, once or more.
    Many(Vec<ParseRule<'a>>),
    /// The sequence, any number of times.
    OptionalMany(Vec<ParseRule<'a>>),
}

/// The fragments of a rule, in order.
pub open spec fn sequence_view(rules: Seq<ParseRule>) -> Seq<Fragment>
    decreases rules, 0nat,
{
    Seq::new(
        rules.len(),
        |i: int|
            if 0 <= i < rules.len() {
                fragment_view(rules[i])
            } else {
                arbitrary()
            },
    )
}

/// The fragment sequences of the cases of an alternation or a conjunction, in order.
pub open spec fn cases_view(cases: Seq<Vec<ParseRule>>) -> Seq<Seq<Fragment>>
    decreases cases, 0nat,
{
    Seq::new(
        cases.len(),
        |i: int|
            if 0 <= i < cases.len() {
                sequence_view(cases[i]@)
            } else {
                arbitrary()
            },
    )
}

/// The fragment that `rule` stands for.
pub open spec fn fragment_view(rule: ParseRule) -> Fragment
    decreases rule, 1nat,
{
    match rule {
        ParseRule::SingleToken(name, text) => Fragment::SingleToken(
            name,
            match text {
                Some(s) => Some(s@),
                None => None,
            },
        ),
        ParseRule::Disjunction(cases) => Fragment::Disjunction(cases_view(cases@)),
        ParseRule::Conjunction(cases) => Fragment::Conjunction(cases_view(cases@)),
        ParseRule::Nest(name) => Fragment::Nest(name@),
        ParseRule::Optional(sub) => Fragment::Optional(sequence_view(sub@)),
        ParseRule::Many(sub) => Fragment::Many(sequence_view(sub@)),
        ParseRule::OptionalMany(sub) => Fragment::OptionalMany(sequence_view(sub@)),
    }
}

/// A node of the tree: the rule it was matched with, and what that rule produced.
#[derive(Debug, PartialEq, Eq)]
pub struct ASTNode<'a> {
    pub matched_with: &'static str,
    pub content: Vec<ASTNodeContent<'a>>,
}

/// What a fragment leaves in the tree.
#[derive(Debug, PartialEq, Eq)]
pub enum ASTNodeContent<'a> {
    /// An optional sequence that was not there.
    Absent,
    /// A token, borrowed from the token sequence.
    Tok(&'a Token<'a>),
    /// What a repetition, an optional sequence, an alternation or a conjunction matched.
    Grouping(Vec<ASTNodeContent<'a>>),
    /// What a named rule matched.
    Node(ASTNode<'a>),
}

/// What a fragment leaves in the tree, as the model sees it.
pub enum Item {
    /// An optional sequence that was not there.
    Absent,
    /// A token.
    Tok(TokenView),
    /// What a repetition, an optional sequence, an alternation or a conjunction matched.
    Grouping(Seq<Item>),
    /// What the rule of the given name matched.
    Node(Seq<char>, Seq<Item>),
}

/// The items that `content` stands for, in order.
pub open spec fn items_view(content: Seq<ASTNodeContent>) -> Seq<Item>
    decreases content, 0nat,
{
    Seq::new(
        content.len(),
        |i: int|
            if 0 <= i < content.len() {
                item_view(content[i])
            } else {
                arbitrary()
            },
    )
}

/// The item that `content` stands for.
pub open spec fn item_view(content: ASTNodeContent) -> Item
    decreases content, 1nat,
{
    match content {
        ASTNodeContent::Absent => Item::Absent,
        ASTNodeContent::Tok(t) => Item::Tok(t@),
        ASTNodeContent::Grouping(inner) => Item::Grouping(items_view(inner@)),
        ASTNodeContent::Node(node) => Item::Node(node.matched_with@, items_view(node.content@)),
    }
}

/// A rule table: rule names with their fragment sequences, in declaration order.
pub type RuleTable = Seq<(Seq<char>, Seq<Fragment>)>;

/// The names and fragment sequences of a rule list, in order.
pub open spec fn table_view(list: Seq<(&'static str, Vec<ParseRule>)>) -> RuleTable {
    Seq::new(list.len(), |i: int| (list[i].0@, sequence_view(list[i].1@)))
}

/// The fragment sequence of the first entry named `name`, if there is one.
pub open spec fn lookup(table: RuleTable, name: Seq<char>) -> Option<Seq<Fragment>>
    decreases table.len(),
{
    if table.len() == 0 {
        None
    } else if table[0].0 == name {
        Some(table[0].1)
    } else {
        lookup(table.drop_first(), name)
    }
}

/// A node as the model sees it: the rule it was matched with, and what that produced.
pub struct NodeView {
    pub matched_with: Seq<char>,
    pub content: Seq<Item>,
}

impl<'a> View for ASTNode<'a> {
    type V = NodeView;

    open spec fn view(&self) -> NodeView {
        NodeView { matched_with: self.matched_with@, content: items_view(self.content@) }
    }
}

/// A tree with its root, and whether ghost tokens were left out when it was built.
#[derive(Debug, PartialEq, Eq)]
pub struct AST<'a> {
    pub is_abstract: bool,
    pub root: ASTNode<'a>,
}

/// A tree as the model sees it.
pub struct TreeView {
    pub is_abstract: bool,
    pub root: NodeView,
}

impl<'a> View for AST<'a> {
    type V = TreeView;

    open spec fn view(&self) -> TreeView {
        TreeView { is_abstract: self.is_abstract, root: self.root@ }
    }
}

/// `lookup` finds the first entry of that name: no entry before it has the name, and
/// without a result no entry has it at all.
pub proof fn lemma_lookup_finds_first(table: RuleTable, name: Seq<char>)
    ensures
        match lookup(table, name) {
            Some(fragments) => exists|i: int|
                0 <= i < table.len() && #[trigger] table[i].0 == name && table[i].1 == fragments
                    && forall|j: int| 0 <= j < i ==> #[trigger] table[j].0 != name,
            None => forall|i: int| 0 <= i < table.len() ==> #[trigger] table[i].0 != name,
        },
    decreases table.len(),
{
    if table.len() > 0 {
        if table[0].0 != name {
            let rest = table.drop_first();
            lemma_lookup_finds_first(rest, name);
            match lookup(rest, name) {
                Some(fragments) => {
                    let i = choose|i: int|
                        0 <= i < rest.len() && #[trigger] rest[i].0 == name && rest[i].1
                            == fragments && forall|j: int|
                            0 <= j < i ==> #[trigger] rest[j].0 != name;
                    assert forall|j: int| 0 <= j < i + 1 implies #[trigger] table[j].0
                        != name by {
                        if j > 0 {
                            assert(table[j] == rest[j - 1]);
                        }
                    }
                },
                None => {
                    assert forall|i: int| 0 <= i < table.len() implies #[trigger] table[i].0
                        != name by {
                        if i > 0 {
                            assert(table[i] == rest[i - 1]);
                        }
                    }
                },
            }
        }
    }
}

/// The rule of the first entry of `list` whose name is `key`; nothing where no entry has
/// that name.
pub fn get_rule<'a>(list: &'a [(&'static str, Vec<ParseRule<'a>>)], key: &str) -> (found: Option<
    &'a [ParseRule<'a>],
>)
    ensures
        match found {
            Some(rule) => lookup(table_view(list@), key@) == Some(sequence_view(rule@)),
            None => lookup(table_view(list@), key@) is None,
        },
{
    let ghost table = table_view(list@);
    let mut i: usize = 0;
    assert(table.skip(0) =~= table);
    while i < list.len()
        invariant
            i <= list.len(),
            table == table_view(list@),
            lookup(table, key@) == lookup(table.skip(i as int), key@),
        decreases list.len() - i,
    {
        proof {
            assert(table.skip(i as int).drop_first() =~= table.skip(i as int + 1));
        }
        if same_text(list[i].0, key) {
            return Some(list[i].1.as_slice());
        }
        i += 1;
    }
    None
}

} // verus!
