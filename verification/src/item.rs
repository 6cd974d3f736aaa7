//! The items of the list.
use vstd::prelude::*;

verus! {

/// A heading or a task, with the file and the line (counted from 1) that it was found at.
/// The path is the sequence of its bytes, with `/` between its parts.
#[derive(Debug, Clone)]
pub struct Item {
    pub path: Vec<u8>,
    pub line: usize,
    pub kind: ItemKind,
}

#[derive(Debug, Clone)]
pub enum ItemKind {
    /// The level, 1 to 6, and the title.
    Heading(u8, String),
    /// Whether it is done, how wide it is indented on the screen, and its text.
    Task { done: bool, indent: usize, body: String },
}

/// What an item is: its path as bytes, its text as characters.
pub ghost struct ItemView {
    pub path: Seq<u8>,
    pub line: nat,
    pub kind: KindView,
}

pub ghost enum KindView {
    Heading(nat, Seq<char>),
    Task { done: bool, indent: nat, body: Seq<char> },
}

impl View for ItemKind {
    type V = KindView;

    open spec fn view(&self) -> KindView {
        match *self {
            ItemKind::Heading(level, text) => KindView::Heading(level as nat, text@),
            ItemKind::Task { done, indent, body } => KindView::Task {
                done,
                indent: indent as nat,
                body: body@,
            },
        }
    }
}

impl View for Item {
    type V = ItemView;

    open spec fn view(&self) -> ItemView {
        ItemView { path: self.path@, line: self.line as nat, kind: self.kind@ }
    }
}

/// What each item of a list is.
pub open spec fn item_views(items: Seq<Item>) -> Seq<ItemView> {
    Seq::new(items.len(), |i: int| items[i]@)
}

/// A copy of a sequence of bytes.
pub fn copy_bytes(bytes: &[u8]) -> (v: Vec<u8>)
    ensures
        v@ == bytes@,
{
    let mut v: Vec<u8> = Vec::new();
    let mut i: usize = 0;
    while i < bytes.len()
        invariant
            i <= bytes@.len(),
            v@ == bytes@.take(i as int),
        decreases bytes.len() - i,
    {
        v.push(bytes[i]);
        i += 1;
    }
    assert(bytes@.take(bytes@.len() as int) == bytes@);
    v
}

/// Nothing of an item is lost in what it is: its path, its line, and its kind with all that
/// belongs to it.
pub proof fn law_items_are_what_they_hold(items: Seq<Item>, i: int)
    requires
        0 <= i < items.len(),
    ensures
        item_views(items).len() == items.len(),
        item_views(items)[i] == items[i]@,
        items[i]@.path == items[i].path@,
        items[i]@.line == items[i].line,
        match items[i].kind {
            ItemKind::Heading(level, text) => items[i]@.kind == KindView::Heading(
                level as nat,
                text@,
            ),
            ItemKind::Task { done, indent, body } => items[i]@.kind == (KindView::Task {
                done,
                indent: indent as nat,
                body: body@,
            }),
        },
{
}

} // verus!
