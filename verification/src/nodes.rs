//! The syntax tree that the parser builds, and the mathematical value of each
//! of its nodes.

use crate::tokens::{Token, TokenView};
use vstd::prelude::*;
use vstd::string::*;

verus! {

/// A whole program: imports, the meta block and the declarations, each list in
/// source order.
#[derive(Debug, PartialEq, Eq)]
pub struct ProgramNode<'src> {
    pub imports: Vec<ImportDeclarationNode<'src>>,
    pub meta: MetaDeclarationNode<'src>,
    pub declarations: Vec<DeclarationNode<'src>>,
}

/// A top-level declaration.
#[derive(Debug, PartialEq, Eq)]
pub struct DeclarationNode<'src> {
    pub staff: StaffDeclarationNode<'src>,
}

/// `staff` name `is` type `in` signature `{` pickup? statement* `}`.
#[derive(Debug, PartialEq, Eq)]
pub struct StaffDeclarationNode<'src> {
    pub identifier: Token<'src>,
    pub staff_type: CallNode<'src>,
    pub signature: Token<'src>,
    pub pickup: Option<PickupNode<'src>>,
    pub statements: Vec<StaffStatementNode<'src>>,
}

/// `pickup` block: the lead-in before the first measure.
#[derive(Debug, PartialEq, Eq)]
pub struct PickupNode<'src> {
    pub block: BlockNode<'src>,
}

/// `measure` block: one bar.
#[derive(Debug, PartialEq, Eq)]
pub struct MeasureNode<'src> {
    pub block: BlockNode<'src>,
}

/// `{` call-with* `}`.
#[derive(Debug, PartialEq, Eq)]
pub struct BlockNode<'src> {
    pub calls: Vec<CallWithNode<'src>>,
}

/// A call and the modifiers chained to it by `with`.
#[derive(Debug, PartialEq, Eq)]
pub struct CallWithNode<'src> {
    pub call: CallNode<'src>,
    pub with: Vec<WithNode<'src>>,
}

/// What follows one `with`: a bare identifier or a call.
#[derive(Debug, PartialEq, Eq)]
pub enum WithNode<'src> {
    Identifier(Token<'src>),
    Call(CallNode<'src>),
}

/// One statement of a staff body: a measure or a call.
#[derive(Debug, PartialEq, Eq)]
pub enum StaffStatementNode<'src> {
    Measure(MeasureNode<'src>),
    Call(CallNode<'src>),
}

/// `meta` `{` call+ `}`.
#[derive(Debug, PartialEq, Eq)]
pub struct MetaDeclarationNode<'src> {
    pub configs: Vec<CallNode<'src>>,
}

/// name `(` argument (`,` argument)* `)`.
#[derive(Debug, PartialEq, Eq)]
pub struct CallNode<'src> {
    pub identifier: Token<'src>,
    pub arguments: Vec<ArgumentNode<'src>>,
}

/// One argument of a call: a literal, an identifier, a note or a number.
#[derive(Debug, PartialEq, Eq)]
pub struct ArgumentNode<'src> {
    pub argument: Token<'src>,
}

/// `import` `{` name (`,` name)* `}` `from` literal.
#[derive(Debug, PartialEq, Eq)]
pub struct ImportDeclarationNode<'src> {
    pub items: Vec<Token<'src>>,
    pub source: Token<'src>,
}

/// The value of a call: its name and its arguments.
pub struct CallView {
    pub identifier: TokenView,
    pub arguments: Seq<TokenView>,
}

/// The value of what follows one `with`.
pub enum WithView {
    Identifier(TokenView),
    Call(CallView),
}

/// The value of a call with its modifiers.
pub struct CallWithView {
    pub call: CallView,
    pub with: Seq<WithView>,
}

/// The value of a statement. A measure is given by the calls of its block.
pub enum StatementView {
    Measure(Seq<CallWithView>),
    Call(CallView),
}

/// The value of a staff declaration. The pickup is given by the calls of its
/// block.
pub struct StaffView {
    pub identifier: TokenView,
    pub staff_type: CallView,
    pub signature: TokenView,
    pub pickup: Option<Seq<CallWithView>>,
    pub statements: Seq<StatementView>,
}

/// The value of an import.
pub struct ImportView {
    pub items: Seq<TokenView>,
    pub source: TokenView,
}

/// The value of a program. The meta block is given by its calls, and each
/// declaration by its staff.
pub struct ProgramView {
    pub imports: Seq<ImportView>,
    pub meta: Seq<CallView>,
    pub declarations: Seq<StaffView>,
}

impl CallView {
    /// A call has an identifier for its name and at least one argument, and
    /// each argument is a literal, an identifier, a note or a number.
    pub open spec fn well_formed(self) -> bool {
        &&& self.identifier is Identifier
        &&& self.arguments.len() >= 1
        &&& forall|i: int|
            0 <= i < self.arguments.len() ==> (#[trigger] self.arguments[i]).is_argument()
    }
}

impl WithView {
    /// A bare modifier is an identifier; a call is well formed.
    pub open spec fn well_formed(self) -> bool {
        match self {
            WithView::Identifier(identifier) => identifier is Identifier,
            WithView::Call(call) => call.well_formed(),
        }
    }
}

impl CallWithView {
    /// The call and each of its modifiers are well formed.
    pub open spec fn well_formed(self) -> bool {
        &&& self.call.well_formed()
        &&& forall|i: int| 0 <= i < self.with.len() ==> (#[trigger] self.with[i]).well_formed()
    }
}

/// Each call of a block is well formed.
pub open spec fn block_well_formed(calls: Seq<CallWithView>) -> bool {
    forall|i: int| 0 <= i < calls.len() ==> (#[trigger] calls[i]).well_formed()
}

impl StatementView {
    /// The block of a measure, or the call, is well formed.
    pub open spec fn well_formed(self) -> bool {
        match self {
            StatementView::Measure(calls) => block_well_formed(calls),
            StatementView::Call(call) => call.well_formed(),
        }
    }
}

impl StaffView {
    /// The name is an identifier, the signature a signature, and the type,
    /// the pickup and each statement are well formed.
    pub open spec fn well_formed(self) -> bool {
        &&& self.identifier is Identifier
        &&& self.staff_type.well_formed()
        &&& self.signature is Signature
        &&& (self.pickup matches Some(calls) ==> block_well_formed(calls))
        &&& forall|i: int|
            0 <= i < self.statements.len() ==> (#[trigger] self.statements[i]).well_formed()
    }
}

impl ImportView {
    /// An import has at least one name, each name is an identifier, and the
    /// source is a literal.
    pub open spec fn well_formed(self) -> bool {
        &&& self.items.len() >= 1
        &&& forall|i: int| 0 <= i < self.items.len() ==> (#[trigger] self.items[i]) is Identifier
        &&& self.source is Literal
    }
}

impl ProgramView {
    /// The meta block holds at least one call, and each import, each call of
    /// the meta block and each declaration is well formed.
    pub open spec fn well_formed(self) -> bool {
        &&& forall|i: int|
            0 <= i < self.imports.len() ==> (#[trigger] self.imports[i]).well_formed()
        &&& self.meta.len() >= 1
        &&& forall|i: int| 0 <= i < self.meta.len() ==> (#[trigger] self.meta[i]).well_formed()
        &&& forall|i: int|
            0 <= i < self.declarations.len() ==> (#[trigger] self.declarations[i]).well_formed()
    }
}

/// The values of the items of a list, in the same order.
pub open spec fn views<T: View>(items: Seq<T>) -> Seq<T::V> {
    items.map_values(|item: T| item@)
}

/// The values of a list with one more item are the values of the list with the
/// value of that item added.
pub proof fn lemma_views_push<T: View>(items: Seq<T>, item: T)
    ensures
        views(items.push(item)) == views(items).push(item@),
{
    assert(views(items.push(item)) =~= views(items).push(item@));
}

/// An empty list has no values.
pub proof fn lemma_views_empty<T: View>()
    ensures
        views(Seq::<T>::empty()) == Seq::<T::V>::empty(),
{
    assert(views(Seq::<T>::empty()) =~= Seq::<T::V>::empty());
}

impl<'src> View for ArgumentNode<'src> {
    type V = TokenView;

    open spec fn view(&self) -> TokenView {
        self.argument@
    }
}

impl<'src> View for CallNode<'src> {
    type V = CallView;

    open spec fn view(&self) -> CallView {
        CallView { identifier: self.identifier@, arguments: views(self.arguments@) }
    }
}

impl<'src> View for WithNode<'src> {
    type V = WithView;

    open spec fn view(&self) -> WithView {
        match *self {
            WithNode::Identifier(token) => WithView::Identifier(token@),
            WithNode::Call(call) => WithView::Call(call@),
        }
    }
}

impl<'src> View for CallWithNode<'src> {
    type V = CallWithView;

    open spec fn view(&self) -> CallWithView {
        CallWithView { call: self.call@, with: views(self.with@) }
    }
}

impl<'src> View for BlockNode<'src> {
    type V = Seq<CallWithView>;

    open spec fn view(&self) -> Seq<CallWithView> {
        views(self.calls@)
    }
}

impl<'src> View for PickupNode<'src> {
    type V = Seq<CallWithView>;

    open spec fn view(&self) -> Seq<CallWithView> {
        self.block@
    }
}

impl<'src> View for MeasureNode<'src> {
    type V = Seq<CallWithView>;

    open spec fn view(&self) -> Seq<CallWithView> {
        self.block@
    }
}

impl<'src> View for StaffStatementNode<'src> {
    type V = StatementView;

    open spec fn view(&self) -> StatementView {
        match *self {
            StaffStatementNode::Measure(measure) => StatementView::Measure(measure@),
            StaffStatementNode::Call(call) => StatementView::Call(call@),
        }
    }
}

impl<'src> View for StaffDeclarationNode<'src> {
    type V = StaffView;

    open spec fn view(&self) -> StaffView {
        StaffView {
            identifier: self.identifier@,
            staff_type: self.staff_type@,
            signature: self.signature@,
            pickup: match self.pickup {
                Some(pickup) => Some(pickup@),
                None => None,
            },
            statements: views(self.statements@),
        }
    }
}

impl<'src> View for DeclarationNode<'src> {
    type V = StaffView;

    open spec fn view(&self) -> StaffView {
        self.staff@
    }
}

impl<'src> View for MetaDeclarationNode<'src> {
    type V = Seq<CallView>;

    open spec fn view(&self) -> Seq<CallView> {
        views(self.configs@)
    }
}

impl<'src> View for ImportDeclarationNode<'src> {
    type V = ImportView;

    open spec fn view(&self) -> ImportView {
        ImportView { items: views(self.items@), source: self.source@ }
    }
}

impl<'src> View for ProgramNode<'src> {
    type V = ProgramView;

    open spec fn view(&self) -> ProgramView {
        ProgramView {
            imports: views(self.imports@),
            meta: self.meta@,
            declarations: views(self.declarations@),
        }
    }
}

/// The names of an import as text: each name, the last one too, with a comma
/// and a space after it.
pub open spec fn listed_text(items: Seq<TokenView>) -> Seq<char>
    decreases items.len(),
{
    if items.len() == 0 {
        seq![]
    } else {
        listed_text(items.drop_last()) + items.last().text() + seq![',', ' ']
    }
}

impl ImportView {
    /// The import as text: `import { `, the names, ` } from ` and the source.
    pub open spec fn text(self) -> Seq<char> {
        seq!['i', 'm', 'p', 'o', 'r', 't', ' ', '{', ' '] + listed_text(self.items) + seq![
            ' ',
            '}',
            ' ',
            'f',
            'r',
            'o',
            'm',
            ' ',
        ] + self.source.text()
    }
}

impl<'src> ImportDeclarationNode<'src> {
    /// The names of the import as text.
    pub fn items(&self) -> (s: String)
        ensures
            s@ == listed_text(self@.items),
    {
        let mut s = String::new();
        let mut i: usize = 0;
        proof {
            assert(views(self.items@).take(0) =~= Seq::<TokenView>::empty());
        }
        while i < self.items.len()
            invariant
                0 <= i <= self.items@.len(),
                s@ == listed_text(views(self.items@).take(i as int)),
            decreases self.items@.len() - i,
        {
            let item = self.items[i].to_string();
            proof {
                reveal_strlit(", ");
                let upto = views(self.items@).take(i + 1);
                assert(upto.drop_last() =~= views(self.items@).take(i as int));
                assert(upto.last() == self.items@[i as int]@);
            }
            s.append(item.as_str());
            s.append(", ");
            i += 1;
            assert(s@ =~= listed_text(views(self.items@).take(i as int)));
        }
        assert(views(self.items@).take(i as int) =~= views(self.items@));
        s
    }

    /// The import as text.
    pub fn to_string(&self) -> (s: String)
        ensures
            s@ == self@.text(),
    {
        proof {
            reveal_strlit("import { ");
            reveal_strlit(" } from ");
        }
        let mut s = String::from_str("import { ");
        s.append(self.items().as_str());
        s.append(" } from ");
        s.append(self.source.to_string().as_str());
        assert(s@ =~= self@.text());
        s
    }
}

} // verus!
