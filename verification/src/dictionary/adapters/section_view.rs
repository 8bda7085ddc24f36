//! Mathematical values of adapted sections and their items.
use vstd::prelude::*;
use crate::dictionary::adapters::common::links_view;
use crate::dictionary::adapters::daijirin_senses::{examples_view, senses_view, text_view, texts_view, SenseView};
use crate::dictionary::adapters::daijirin_text::{opt_view, tags_view};
use crate::dictionary::model::{DictionaryGlossClause, DictionaryGlossGroup, DictionarySection, DictionarySectionItem};

verus! {

pub type TextView = (Seq<char>, Option<Seq<char>>, Seq<char>);

pub type ExampleView = (TextView, Option<TextView>, Option<TextView>);

pub type LinkView = (Seq<char>, Seq<char>, Seq<char>);

pub type TagView = (Seq<char>, Seq<char>);

pub ghost struct ClauseView {
    pub separator: Option<Seq<char>>,
    pub qualifier: Option<Seq<char>>,
    pub leading: Seq<TagView>,
    pub text: TextView,
    pub trailing: Seq<TagView>,
}

pub ghost struct GroupView {
    pub heading: Option<Seq<char>>,
    pub clauses: Seq<ClauseView>,
}

pub open spec fn clause_view(c: DictionaryGlossClause) -> ClauseView {
    ClauseView {
        separator: opt_view(c.separator),
        qualifier: opt_view(c.qualifier),
        leading: tags_view(c.leading_tags@),
        text: text_view(c.text),
        trailing: tags_view(c.trailing_tags@),
    }
}

pub open spec fn clauses_view(v: Seq<DictionaryGlossClause>) -> Seq<ClauseView> {
    v.map_values(|c: DictionaryGlossClause| clause_view(c))
}

pub open spec fn group_view(g: DictionaryGlossGroup) -> GroupView {
    GroupView { heading: opt_view(g.heading), clauses: clauses_view(g.clauses@) }
}

pub open spec fn groups_view(v: Seq<DictionaryGlossGroup>) -> Seq<GroupView> {
    v.map_values(|g: DictionaryGlossGroup| group_view(g))
}


/// Everything a section item holds, as mathematical values.
pub ghost struct ItemView {
    pub label: Option<Seq<char>>,
    pub label_html: Option<Seq<char>>,
    pub reading: Option<Seq<char>>,
    pub content: Seq<TextView>,
    pub tags: Seq<(Seq<char>, Seq<char>)>,
    pub examples: Seq<ExampleView>,
    pub senses: Seq<SenseView>,
    pub relations: Seq<LinkView>,
}

pub open spec fn item_view(i: DictionarySectionItem) -> ItemView {
    ItemView {
        label: opt_view(i.label),
        label_html: opt_view(i.label_html),
        reading: opt_view(i.reading),
        content: texts_view(i.content@),
        tags: tags_view(i.tags@),
        examples: examples_view(i.examples@),
        senses: senses_view(i.senses@),
        relations: links_view(i.relations@),
    }
}

pub open spec fn items_view(v: Seq<DictionarySectionItem>) -> Seq<ItemView> {
    v.map_values(|i: DictionarySectionItem| item_view(i))
}

/// A section's kind, label and items.
pub type SectionView = (Seq<char>, Option<Seq<char>>, Seq<ItemView>);

pub open spec fn section_view(s: DictionarySection) -> SectionView {
    (s.kind@, opt_view(s.label), items_view(s.items@))
}

pub open spec fn sections_view(v: Seq<DictionarySection>) -> Seq<SectionView> {
    v.map_values(|s: DictionarySection| section_view(s))
}

/// An item that holds only texts, with its relations.
pub open spec fn plain_item(label: Option<Seq<char>>, content: Seq<TextView>, examples: Seq<ExampleView>, relations: Seq<LinkView>) -> ItemView {
    ItemView {
        label,
        label_html: None,
        reading: None,
        content,
        tags: seq![],
        examples,
        senses: seq![],
        relations,
    }
}

} // verus!
