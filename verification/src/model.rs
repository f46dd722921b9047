//! The document model: dated folders of named pages.
//!
//! A document maps folder keys to folders and each folder maps page names
//! to pages. In memory both levels are kept as vectors in strictly
//! ascending order of their keys, so every document has exactly one
//! representation.

use crate::order::{
    lemma_text_lt_irreflexive, lemma_text_lt_total, lemma_text_lt_transitive, rank_text,
    same_text, text_lt, Rank,
};
use vstd::prelude::*;
use vstd::std_specs::cmp::PartialEqSpecImpl;

verus! {

/// What a page is, as plain text.
pub struct PageModel {
    pub name: Seq<char>,
    pub created_at: Seq<char>,
    pub content: Seq<char>,
}

/// What a folder is: its key and its pages in order.
pub struct FolderModel {
    pub key: Seq<char>,
    pub pages: Seq<PageModel>,
}

/// What a folder holds under a page's name.
pub struct PageData {
    pub created_at: Seq<char>,
    pub content: Seq<char>,
}

/// The logical content of a folder.
pub type FolderMap = Map<Seq<char>, PageData>;

/// The logical content of a document.
pub type DocumentMap = Map<Seq<char>, FolderMap>;

/// The names of a sequence of pages, in order.
pub open spec fn page_names(pages: Seq<PageModel>) -> Seq<Seq<char>> {
    pages.map_values(|p: PageModel| p.name)
}

/// The keys of a sequence of folders, in order.
pub open spec fn folder_keys(folders: Seq<FolderModel>) -> Seq<Seq<char>> {
    folders.map_values(|f: FolderModel| f.key)
}

/// Each text comes strictly before all later ones.
pub open spec fn strictly_ascending(keys: Seq<Seq<char>>) -> bool {
    forall|i: int, j: int| 0 <= i < j < keys.len() ==> text_lt(keys[i], keys[j])
}

/// The invariant of a document: folders in strictly ascending order of
/// their keys, and in each folder the pages in strictly ascending order of
/// their names. In particular no key and no name occurs twice.
pub open spec fn model_wf(folders: Seq<FolderModel>) -> bool {
    &&& strictly_ascending(folder_keys(folders))
    &&& forall|i: int|
        0 <= i < folders.len() ==> strictly_ascending(page_names(#[trigger] folders[i].pages))
}

/// The data stored with a page.
pub open spec fn page_data(page: PageModel) -> PageData {
    PageData { created_at: page.created_at, content: page.content }
}

/// The map that takes each key of `keys` to the value at the same index of
/// `values`.
pub open spec fn keyed_map<V>(keys: Seq<Seq<char>>, values: Seq<V>) -> Map<Seq<char>, V> {
    Map::new(|k: Seq<char>| keys.contains(k), |k: Seq<char>| values[keys.index_of(k)])
}

/// The map from page name to page data that a sequence of pages stands for.
pub open spec fn pages_map(pages: Seq<PageModel>) -> FolderMap {
    keyed_map(page_names(pages), pages.map_values(|p: PageModel| page_data(p)))
}

/// The map from folder key to folder content that a sequence of folders
/// stands for.
pub open spec fn folders_map(folders: Seq<FolderModel>) -> DocumentMap {
    keyed_map(folder_keys(folders), folders.map_values(|f: FolderModel| pages_map(f.pages)))
}

/// In a strictly ascending sequence no text occurs twice.
pub proof fn lemma_ascending_distinct(keys: Seq<Seq<char>>)
    requires
        strictly_ascending(keys),
    ensures
        forall|i: int, j: int|
            0 <= i < keys.len() && 0 <= j < keys.len() && i != j ==> keys[i] != keys[j],
{
    assert forall|i: int, j: int|
        0 <= i < keys.len() && 0 <= j < keys.len() && i != j implies keys[i] != keys[j] by {
        lemma_text_lt_irreflexive(keys[i]);
        if i < j {
            assert(text_lt(keys[i], keys[j]));
        } else {
            assert(text_lt(keys[j], keys[i]));
        }
    }
}

/// In a strictly ascending sequence a text is found at its own index.
pub proof fn lemma_index_of_ascending(keys: Seq<Seq<char>>, i: int)
    requires
        strictly_ascending(keys),
        0 <= i < keys.len(),
    ensures
        keys.contains(keys[i]),
        keys.index_of(keys[i]) == i,
{
    lemma_ascending_distinct(keys);
    assert(keys.contains(keys[i]));
    let j = keys.index_of(keys[i]);
    assert(0 <= j < keys.len() && keys[j] == keys[i]);
}

/// A slot of `key` in `keys`: everything before it is smaller, and what
/// stands at it, if anything, is not smaller than `key`.
pub open spec fn is_slot(keys: Seq<Seq<char>>, key: Seq<char>, slot: int) -> bool {
    &&& 0 <= slot <= keys.len()
    &&& forall|j: int| 0 <= j < slot ==> text_lt(#[trigger] keys[j], key)
    &&& slot < keys.len() ==> !text_lt(keys[slot], key)
}

/// With its slot known, `key` occurs in a strictly ascending sequence
/// exactly if it stands at the slot.
pub proof fn lemma_slot_decides(keys: Seq<Seq<char>>, key: Seq<char>, slot: int)
    requires
        strictly_ascending(keys),
        is_slot(keys, key, slot),
    ensures
        keys.contains(key) <==> (slot < keys.len() && keys[slot] == key),
{
    if keys.contains(key) {
        let j = keys.index_of(key);
        assert(0 <= j < keys.len() && keys[j] == key);
        lemma_text_lt_irreflexive(key);
        if j < slot {
            assert(text_lt(keys[j], key));
        } else if j > slot {
            assert(text_lt(keys[slot], keys[j]));
        }
    }
}

/// Putting an absent key at its slot keeps the sequence strictly ascending.
pub proof fn lemma_insert_ascending(keys: Seq<Seq<char>>, key: Seq<char>, slot: int)
    requires
        strictly_ascending(keys),
        is_slot(keys, key, slot),
        !keys.contains(key),
    ensures
        strictly_ascending(keys.insert(slot, key)),
{
    let out = keys.insert(slot, key);
    assert forall|i: int, j: int| 0 <= i < j < out.len() implies text_lt(out[i], out[j]) by {
        if j < slot {
            assert(out[i] == keys[i] && out[j] == keys[j]);
        } else if j == slot {
            assert(out[i] == keys[i]);
            assert(text_lt(keys[i], key));
        } else if i < slot {
            assert(out[i] == keys[i] && out[j] == keys[j - 1]);
            assert(text_lt(keys[i], keys[j - 1]));
        } else if i == slot {
            assert(out[j] == keys[j - 1]);
            assert(keys[slot] != key) by {
                assert(keys.contains(keys[slot]));
            }
            lemma_text_lt_total(key, keys[slot]);
            if j - 1 > slot {
                assert(text_lt(keys[slot], keys[j - 1]));
                lemma_text_lt_transitive(key, keys[slot], keys[j - 1]);
            }
        } else {
            assert(out[i] == keys[i - 1] && out[j] == keys[j - 1]);
        }
    }
}

/// A keyed map holds under each key the value at that key's index.
pub proof fn lemma_keyed_map_at<V>(keys: Seq<Seq<char>>, values: Seq<V>, i: int)
    requires
        strictly_ascending(keys),
        0 <= i < keys.len(),
    ensures
        keyed_map(keys, values).dom().contains(keys[i]),
        keyed_map(keys, values)[keys[i]] == values[i],
{
    lemma_index_of_ascending(keys, i);
}

/// Putting a new key with its value at the key's slot inserts the pair
/// into the keyed map.
pub proof fn lemma_keyed_map_insert<V>(
    keys: Seq<Seq<char>>,
    values: Seq<V>,
    slot: int,
    key: Seq<char>,
    value: V,
)
    requires
        strictly_ascending(keys),
        keys.len() == values.len(),
        is_slot(keys, key, slot),
        !keys.contains(key),
    ensures
        keyed_map(keys.insert(slot, key), values.insert(slot, value)) == keyed_map(
            keys,
            values,
        ).insert(key, value),
{
    let keys2 = keys.insert(slot, key);
    let values2 = values.insert(slot, value);
    let left = keyed_map(keys2, values2);
    let right = keyed_map(keys, values).insert(key, value);
    lemma_insert_ascending(keys, key, slot);
    assert forall|k: Seq<char>| left.dom().contains(k) <==> right.dom().contains(k) by {
        if keys2.contains(k) {
            let j = keys2.index_of(k);
            assert(0 <= j < keys2.len() && keys2[j] == k);
            if j < slot {
                assert(keys[j] == k);
            } else if j > slot {
                assert(keys[j - 1] == k);
            }
        }
        if keys.contains(k) {
            let j = keys.index_of(k);
            assert(0 <= j < keys.len() && keys[j] == k);
            if j < slot {
                assert(keys2[j] == k);
            } else {
                assert(keys2[j + 1] == k);
            }
        }
        if k == key {
            assert(keys2[slot] == k);
        }
    }
    assert forall|k: Seq<char>| left.dom().contains(k) implies left[k] == right[k] by {
        let j = keys2.index_of(k);
        assert(0 <= j < keys2.len() && keys2[j] == k);
        lemma_index_of_ascending(keys2, j);
        if j < slot {
            lemma_index_of_ascending(keys, j);
        } else if j > slot {
            lemma_index_of_ascending(keys, j - 1);
        }
    }
    assert(left =~= right);
}

/// Replacing the value at an index replaces it under that index's key.
pub proof fn lemma_keyed_map_update<V>(keys: Seq<Seq<char>>, values: Seq<V>, i: int, value: V)
    requires
        strictly_ascending(keys),
        keys.len() == values.len(),
        0 <= i < keys.len(),
    ensures
        keyed_map(keys, values.update(i, value)) == keyed_map(keys, values).insert(keys[i], value),
{
    let left = keyed_map(keys, values.update(i, value));
    let right = keyed_map(keys, values).insert(keys[i], value);
    assert(keys.contains(keys[i]));
    assert forall|k: Seq<char>| left.dom().contains(k) implies left[k] == right[k] by {
        let j = keys.index_of(k);
        assert(0 <= j < keys.len() && keys[j] == k);
        lemma_index_of_ascending(keys, j);
        lemma_index_of_ascending(keys, i);
    }
    assert(left =~= right);
}

/// Whether a document has a page of that name in the folder of that key.
pub open spec fn has_page(doc: DocumentMap, folder_key: Seq<char>, page_name: Seq<char>) -> bool {
    doc.dom().contains(folder_key) && doc[folder_key].dom().contains(page_name)
}

/// The folder under `key`, or an empty one where the document has none.
pub open spec fn folder_or_empty(doc: DocumentMap, key: Seq<char>) -> FolderMap {
    if doc.dom().contains(key) {
        doc[key]
    } else {
        Map::empty()
    }
}

/// The document with `data` stored under `page_name` in the folder of
/// `folder_key`, which is created if need be.
pub open spec fn with_page(
    doc: DocumentMap,
    folder_key: Seq<char>,
    page_name: Seq<char>,
    data: PageData,
) -> DocumentMap {
    doc.insert(folder_key, folder_or_empty(doc, folder_key).insert(page_name, data))
}

/// The document with the content of an existing page replaced.
pub open spec fn with_content(
    doc: DocumentMap,
    folder_key: Seq<char>,
    page_name: Seq<char>,
    content: Seq<char>,
) -> DocumentMap {
    with_page(
        doc,
        folder_key,
        page_name,
        PageData { created_at: doc[folder_key][page_name].created_at, content },
    )
}

/// The folder at index `i` with its pages replaced.
pub open spec fn folder_with_pages(folders: Seq<FolderModel>, i: int, pages: Seq<PageModel>) -> Seq<
    FolderModel,
> {
    folders.update(i, FolderModel { key: folders[i].key, pages })
}

/// Replacing the pages of one folder by an ascending sequence keeps the
/// invariant and replaces the folder's content in the map.
pub proof fn lemma_replace_pages(folders: Seq<FolderModel>, i: int, pages: Seq<PageModel>)
    requires
        model_wf(folders),
        0 <= i < folders.len(),
        strictly_ascending(page_names(pages)),
    ensures
        model_wf(folder_with_pages(folders, i, pages)),
        folders_map(folders).dom().contains(folders[i].key),
        folders_map(folders)[folders[i].key] == pages_map(folders[i].pages),
        folders_map(folder_with_pages(folders, i, pages)) == folders_map(folders).insert(
            folders[i].key,
            pages_map(pages),
        ),
{
    let out = folder_with_pages(folders, i, pages);
    let content = |f: FolderModel| pages_map(f.pages);
    assert(folder_keys(out) =~= folder_keys(folders));
    assert(out.map_values(content) =~= folders.map_values(content).update(i, pages_map(pages)));
    assert forall|j: int| 0 <= j < out.len() implies strictly_ascending(
        page_names(#[trigger] out[j].pages),
    ) by {
        if j != i {
            assert(out[j] == folders[j]);
        }
    }
    lemma_keyed_map_at(folder_keys(folders), folders.map_values(content), i);
    lemma_keyed_map_update(folder_keys(folders), folders.map_values(content), i, pages_map(pages));
}

/// Adding a page of a new name to an existing folder.
pub proof fn lemma_add_page_to_folder(folders: Seq<FolderModel>, i: int, slot: int, page: PageModel)
    requires
        model_wf(folders),
        0 <= i < folders.len(),
        is_slot(page_names(folders[i].pages), page.name, slot),
        !page_names(folders[i].pages).contains(page.name),
    ensures
        model_wf(folder_with_pages(folders, i, folders[i].pages.insert(slot, page))),
        !has_page(folders_map(folders), folders[i].key, page.name),
        folders_map(
            folder_with_pages(folders, i, folders[i].pages.insert(slot, page)),
        ) == with_page(
            folders_map(folders),
            folders[i].key,
            page.name,
            page_data(page),
        ),
{
    let pages = folders[i].pages;
    let data = |p: PageModel| page_data(p);
    assert(page_names(pages.insert(slot, page)) =~= page_names(pages).insert(slot, page.name));
    assert(pages.insert(slot, page).map_values(data) =~= pages.map_values(data).insert(
        slot,
        page_data(page),
    ));
    lemma_insert_ascending(page_names(pages), page.name, slot);
    lemma_keyed_map_insert(
        page_names(pages),
        pages.map_values(data),
        slot,
        page.name,
        page_data(page),
    );
    lemma_replace_pages(folders, i, pages.insert(slot, page));
}

/// Adding a page under a key that the document does not have yet.
pub proof fn lemma_add_page_to_new_folder(
    folders: Seq<FolderModel>,
    slot: int,
    key: Seq<char>,
    page: PageModel,
)
    requires
        model_wf(folders),
        is_slot(folder_keys(folders), key, slot),
        !folder_keys(folders).contains(key),
    ensures
        model_wf(folders.insert(slot, FolderModel { key, pages: seq![page] })),
        !folders_map(folders).dom().contains(key),
        folders_map(folders.insert(slot, FolderModel { key, pages: seq![page] })) == with_page(
            folders_map(folders),
            key,
            page.name,
            page_data(page),
        ),
{
    let folder = FolderModel { key, pages: seq![page] };
    let out = folders.insert(slot, folder);
    let content = |f: FolderModel| pages_map(f.pages);
    let data = |p: PageModel| page_data(p);
    assert(folder_keys(out) =~= folder_keys(folders).insert(slot, key));
    assert(out.map_values(content) =~= folders.map_values(content).insert(
        slot,
        pages_map(folder.pages),
    ));
    lemma_insert_ascending(folder_keys(folders), key, slot);
    assert forall|j: int| 0 <= j < out.len() implies strictly_ascending(
        page_names(#[trigger] out[j].pages),
    ) by {
        if j < slot {
            assert(out[j] == folders[j]);
        } else if j > slot {
            assert(out[j] == folders[j - 1]);
        }
    }
    lemma_keyed_map_insert(
        folder_keys(folders),
        folders.map_values(content),
        slot,
        key,
        pages_map(folder.pages),
    );
    let none = Seq::<PageModel>::empty();
    assert(seq![page] =~= none.insert(0, page));
    assert(page_names(none.insert(0, page)) =~= page_names(none).insert(0, page.name));
    assert(none.insert(0, page).map_values(data) =~= none.map_values(data).insert(
        0,
        page_data(page),
    ));
    lemma_keyed_map_insert(page_names(none), none.map_values(data), 0, page.name, page_data(page));
    assert(pages_map(none) =~= Map::<Seq<char>, PageData>::empty());
}

/// Replacing the content of an existing page.
pub proof fn lemma_replace_content(folders: Seq<FolderModel>, i: int, j: int, content: Seq<char>)
    requires
        model_wf(folders),
        0 <= i < folders.len(),
        0 <= j < folders[i].pages.len(),
    ensures
        has_page(folders_map(folders), folders[i].key, folders[i].pages[j].name),
        folders_map(folders)[folders[i].key][folders[i].pages[j].name] == page_data(
            folders[i].pages[j],
        ),
        model_wf(
            folder_with_pages(
                folders,
                i,
                folders[i].pages.update(
                    j,
                    PageModel {
                        name: folders[i].pages[j].name,
                        created_at: folders[i].pages[j].created_at,
                        content,
                    },
                ),
            ),
        ),
        folders_map(
            folder_with_pages(
                folders,
                i,
                folders[i].pages.update(
                    j,
                    PageModel {
                        name: folders[i].pages[j].name,
                        created_at: folders[i].pages[j].created_at,
                        content,
                    },
                ),
            ),
        ) == with_content(folders_map(folders), folders[i].key, folders[i].pages[j].name, content),
{
    let pages = folders[i].pages;
    let page = PageModel { name: pages[j].name, created_at: pages[j].created_at, content };
    let data = |p: PageModel| page_data(p);
    assert(page_names(pages.update(j, page)) =~= page_names(pages));
    assert(pages.update(j, page).map_values(data) =~= pages.map_values(data).update(
        j,
        page_data(page),
    ));
    lemma_keyed_map_at(page_names(pages), pages.map_values(data), j);
    lemma_keyed_map_update(page_names(pages), pages.map_values(data), j, page_data(page));
    lemma_replace_pages(folders, i, pages.update(j, page));
}

/// Two strictly ascending sequences with the same elements are the same
/// sequence.
pub proof fn lemma_ascending_same_elements(x: Seq<Seq<char>>, y: Seq<Seq<char>>)
    requires
        strictly_ascending(x),
        strictly_ascending(y),
        forall|k: Seq<char>| x.contains(k) <==> y.contains(k),
    ensures
        x == y,
    decreases x.len(),
{
    if x.len() == 0 {
        if y.len() > 0 {
            assert(y.contains(y[0]));
        }
        assert(x =~= y);
    } else {
        let top = x.last();
        assert(x.contains(top));
        let j = y.index_of(top);
        assert(0 <= j < y.len() && y[j] == top);
        let other = y.last();
        assert(y.contains(other));
        let i = x.index_of(other);
        assert(0 <= i < x.len() && x[i] == other);
        assert(top == other) by {
            lemma_text_lt_irreflexive(top);
            if j < y.len() - 1 && i < x.len() - 1 {
                assert(text_lt(y[j], y[y.len() - 1]));
                assert(text_lt(x[i], x[x.len() - 1]));
                lemma_text_lt_transitive(top, other, top);
            } else if j < y.len() - 1 {
                assert(text_lt(y[j], y[y.len() - 1]));
            } else if i < x.len() - 1 {
                assert(text_lt(x[i], x[x.len() - 1]));
            }
        }
        let x0 = x.drop_last();
        let y0 = y.drop_last();
        lemma_ascending_distinct(x);
        lemma_ascending_distinct(y);
        assert forall|k: Seq<char>| x0.contains(k) <==> y0.contains(k) by {
            if x0.contains(k) {
                let a = x0.index_of(k);
                assert(0 <= a < x0.len() && x0[a] == k);
                assert(x[a] == k);
                assert(x.contains(k));
                let b = y.index_of(k);
                assert(0 <= b < y.len() && y[b] == k);
                assert(b != y.len() - 1);
                assert(y0[b] == k);
            }
            if y0.contains(k) {
                let b = y0.index_of(k);
                assert(0 <= b < y0.len() && y0[b] == k);
                assert(y[b] == k);
                assert(y.contains(k));
                let a = x.index_of(k);
                assert(0 <= a < x.len() && x[a] == k);
                assert(a != x.len() - 1);
                assert(x0[a] == k);
            }
        }
        assert(strictly_ascending(x0)) by {
            assert forall|a: int, b: int| 0 <= a < b < x0.len() implies text_lt(x0[a], x0[b]) by {
                assert(text_lt(x[a], x[b]));
            }
        }
        assert(strictly_ascending(y0)) by {
            assert forall|a: int, b: int| 0 <= a < b < y0.len() implies text_lt(y0[a], y0[b]) by {
                assert(text_lt(y[a], y[b]));
            }
        }
        lemma_ascending_same_elements(x0, y0);
        assert(x =~= x0.push(top));
        assert(y =~= y0.push(other));
    }
}

/// Two ascending sequences of pages that stand for the same map are the
/// same sequence.
pub proof fn lemma_pages_determined(a: Seq<PageModel>, b: Seq<PageModel>)
    requires
        strictly_ascending(page_names(a)),
        strictly_ascending(page_names(b)),
        pages_map(a) == pages_map(b),
    ensures
        a == b,
{
    let data = |p: PageModel| page_data(p);
    assert forall|k: Seq<char>| page_names(a).contains(k) <==> page_names(b).contains(k) by {
        assert(pages_map(a).dom().contains(k) <==> page_names(a).contains(k));
        assert(pages_map(b).dom().contains(k) <==> page_names(b).contains(k));
    }
    lemma_ascending_same_elements(page_names(a), page_names(b));
    assert(a.len() == page_names(a).len());
    assert(b.len() == page_names(b).len());
    assert forall|i: int| 0 <= i < a.len() implies a[i] == b[i] by {
        lemma_keyed_map_at(page_names(a), a.map_values(data), i);
        lemma_keyed_map_at(page_names(b), b.map_values(data), i);
        assert(page_names(a)[i] == a[i].name);
        assert(page_names(b)[i] == b[i].name);
        assert(a.map_values(data)[i] == page_data(a[i]));
        assert(b.map_values(data)[i] == page_data(b[i]));
    }
    assert(a =~= b);
}

/// A document's content determines its folders and pages: two well-formed
/// sequences of folders that stand for the same map are the same sequence.
pub proof fn lemma_model_determined(a: Seq<FolderModel>, b: Seq<FolderModel>)
    requires
        model_wf(a),
        model_wf(b),
        folders_map(a) == folders_map(b),
    ensures
        a == b,
{
    let content = |f: FolderModel| pages_map(f.pages);
    assert forall|k: Seq<char>| folder_keys(a).contains(k) <==> folder_keys(b).contains(k) by {
        assert(folders_map(a).dom().contains(k) <==> folder_keys(a).contains(k));
        assert(folders_map(b).dom().contains(k) <==> folder_keys(b).contains(k));
    }
    lemma_ascending_same_elements(folder_keys(a), folder_keys(b));
    assert(a.len() == folder_keys(a).len());
    assert(b.len() == folder_keys(b).len());
    assert forall|i: int| 0 <= i < a.len() implies a[i] == b[i] by {
        lemma_keyed_map_at(folder_keys(a), a.map_values(content), i);
        lemma_keyed_map_at(folder_keys(b), b.map_values(content), i);
        assert(folder_keys(a)[i] == a[i].key);
        assert(folder_keys(b)[i] == b[i].key);
        assert(a.map_values(content)[i] == pages_map(a[i].pages));
        assert(b.map_values(content)[i] == pages_map(b[i].pages));
        lemma_pages_determined(a[i].pages, b[i].pages);
    }
    assert(a =~= b);
}

/// The folders and pages of the document of a given content.
pub open spec fn model_of(content: DocumentMap) -> Seq<FolderModel> {
    choose|folders: Seq<FolderModel>| model_wf(folders) && folders_map(folders) == content
}

/// The folders and pages of a document are those of its content.
pub proof fn lemma_model_of_content(folders: Seq<FolderModel>)
    requires
        model_wf(folders),
    ensures
        model_of(folders_map(folders)) == folders,
{
    lemma_model_determined(model_of(folders_map(folders)), folders);
}

/// The errors of the document model.
#[derive(Clone, Copy, Debug, PartialEq, Eq, Structural)]
pub enum ModelError {
    /// The document has no folder under the given key.
    FolderNotFound,
    /// The folder has no page under the given name.
    PageNotFound,
    /// The folder already has a page under the given name.
    DuplicateName,
}

/// A named text entry of a folder.
#[derive(Clone, Debug, PartialEq, Eq)]
pub struct Page {
    pub name: String,
    pub created_at: String,
    pub content: String,
}

impl View for Page {
    type V = PageModel;

    open spec fn view(&self) -> PageModel {
        PageModel { name: self.name@, created_at: self.created_at@, content: self.content@ }
    }
}

/// The pages of a vector, as models.
pub open spec fn pages_view(pages: Seq<Page>) -> Seq<PageModel> {
    pages.map_values(|p: Page| p@)
}

/// A folder: the pages of one calendar day.
#[derive(Clone, Debug, PartialEq, Eq)]
pub struct Folder {
    pub key: String,
    pub pages: Vec<Page>,
}

impl View for Folder {
    type V = FolderModel;

    open spec fn view(&self) -> FolderModel {
        FolderModel { key: self.key@, pages: pages_view(self.pages@) }
    }
}

/// The folders of a vector, as models.
pub open spec fn folders_view(folders: Seq<Folder>) -> Seq<FolderModel> {
    folders.map_values(|f: Folder| f@)
}

/// The views of a vector of strings.
pub open spec fn texts(strings: Seq<String>) -> Seq<Seq<char>> {
    strings.map_values(|s: String| s@)
}

impl Page {
    /// A copy of this page.
    pub fn duplicate(&self) -> (r: Page)
        ensures
            r@ == self@,
    {
        Page {
            name: self.name.clone(),
            created_at: self.created_at.clone(),
            content: self.content.clone(),
        }
    }
}

/// Appends copies of `pages[from..to]` to `out`.
fn duplicate_pages(pages: &Vec<Page>, from: usize, to: usize, out: &mut Vec<Page>)
    requires
        from <= to <= pages.len(),
    ensures
        pages_view(final(out)@) == pages_view(old(out)@) + pages_view(pages@).subrange(
            from as int,
            to as int,
        ),
{
    let mut i: usize = from;
    while i < to
        invariant
            from <= i <= to <= pages.len(),
            pages_view(out@) == pages_view(old(out)@) + pages_view(pages@).subrange(
                from as int,
                i as int,
            ),
        decreases to - i,
    {
        let ghost before = out@;
        out.push(pages[i].duplicate());
        proof {
            assert(pages_view(out@) =~= pages_view(before).push(pages@[i as int]@));
            assert(pages_view(pages@).subrange(from as int, i + 1) =~= pages_view(pages@).subrange(
                from as int,
                i as int,
            ).push(pages@[i as int]@));
        }
        i += 1;
    }
}

impl Folder {
    /// A copy of this folder.
    pub fn duplicate(&self) -> (r: Folder)
        ensures
            r@ == self@,
    {
        let mut pages: Vec<Page> = Vec::new();
        duplicate_pages(&self.pages, 0, self.pages.len(), &mut pages);
        proof {
            assert(pages_view(pages@) =~= pages_view(self.pages@));
        }
        Folder { key: self.key.clone(), pages }
    }
}

/// Appends copies of `folders[from..to]` to `out`.
fn duplicate_folders(folders: &Vec<Folder>, from: usize, to: usize, out: &mut Vec<Folder>)
    requires
        from <= to <= folders.len(),
    ensures
        folders_view(final(out)@) == folders_view(old(out)@) + folders_view(folders@).subrange(
            from as int,
            to as int,
        ),
{
    let mut i: usize = from;
    while i < to
        invariant
            from <= i <= to <= folders.len(),
            folders_view(out@) == folders_view(old(out)@) + folders_view(folders@).subrange(
                from as int,
                i as int,
            ),
        decreases to - i,
    {
        let ghost before = out@;
        out.push(folders[i].duplicate());
        proof {
            assert(folders_view(out@) =~= folders_view(before).push(folders@[i as int]@));
            assert(folders_view(folders@).subrange(from as int, i + 1) =~= folders_view(
                folders@,
            ).subrange(from as int, i as int).push(folders@[i as int]@));
        }
        i += 1;
    }
}

/// Copies of `pages[..upto]`, then `page`, then copies of `pages[from..]`.
fn splice_pages(pages: &Vec<Page>, upto: usize, page: Page, from: usize) -> (r: Vec<Page>)
    requires
        upto <= from <= pages.len(),
    ensures
        pages_view(r@) == pages_view(pages@).subrange(0, upto as int).push(page@) + pages_view(
            pages@,
        ).subrange(from as int, pages.len() as int),
{
    let mut out: Vec<Page> = Vec::new();
    duplicate_pages(pages, 0, upto, &mut out);
    let ghost head = out@;
    let ghost inserted = page@;
    out.push(page);
    proof {
        assert(pages_view(head) =~= pages_view(pages@).subrange(0, upto as int));
        assert(pages_view(out@) =~= pages_view(head).push(inserted));
    }
    duplicate_pages(pages, from, pages.len(), &mut out);
    out
}

/// Copies of `folders[..upto]`, then `folder`, then copies of
/// `folders[from..]`.
fn splice_folders(folders: &Vec<Folder>, upto: usize, folder: Folder, from: usize) -> (r: Vec<
    Folder,
>)
    requires
        upto <= from <= folders.len(),
    ensures
        folders_view(r@) == folders_view(folders@).subrange(0, upto as int).push(folder@)
            + folders_view(folders@).subrange(from as int, folders.len() as int),
{
    let mut out: Vec<Folder> = Vec::new();
    duplicate_folders(folders, 0, upto, &mut out);
    let ghost head = out@;
    let ghost inserted = folder@;
    out.push(folder);
    proof {
        assert(folders_view(head) =~= folders_view(folders@).subrange(0, upto as int));
        assert(folders_view(out@) =~= folders_view(head).push(inserted));
    }
    duplicate_folders(folders, from, folders.len(), &mut out);
    out
}

/// Whether two vectors hold the same pages in the same order.
fn same_pages(a: &Vec<Page>, b: &Vec<Page>) -> (same: bool)
    ensures
        same == (pages_view(a@) == pages_view(b@)),
{
    if a.len() != b.len() {
        return false;
    }
    let mut i: usize = 0;
    while i < a.len()
        invariant
            i <= a.len(),
            a.len() == b.len(),
            forall|j: int| 0 <= j < i ==> a@[j]@ == b@[j]@,
        decreases a.len() - i,
    {
        if !same_text(a[i].name.as_str(), b[i].name.as_str()) || !same_text(
            a[i].created_at.as_str(),
            b[i].created_at.as_str(),
        ) || !same_text(a[i].content.as_str(), b[i].content.as_str()) {
            proof {
                assert(pages_view(a@)[i as int] == a@[i as int]@);
                assert(pages_view(b@)[i as int] == b@[i as int]@);
            }
            return false;
        }
        i += 1;
    }
    proof {
        assert(pages_view(a@) =~= pages_view(b@));
    }
    true
}

/// Whether two vectors hold the same folders in the same order.
fn same_folders(a: &Vec<Folder>, b: &Vec<Folder>) -> (same: bool)
    ensures
        same == (folders_view(a@) == folders_view(b@)),
{
    if a.len() != b.len() {
        return false;
    }
    let mut i: usize = 0;
    while i < a.len()
        invariant
            i <= a.len(),
            a.len() == b.len(),
            forall|j: int| 0 <= j < i ==> a@[j]@ == b@[j]@,
        decreases a.len() - i,
    {
        if !same_text(a[i].key.as_str(), b[i].key.as_str()) || !same_pages(
            &a[i].pages,
            &b[i].pages,
        ) {
            proof {
                assert(folders_view(a@)[i as int] == a@[i as int]@);
                assert(folders_view(b@)[i as int] == b@[i as int]@);
            }
            return false;
        }
        i += 1;
    }
    proof {
        assert(folders_view(a@) =~= folders_view(b@));
    }
    true
}

/// Finds the slot of `name` among the pages, and whether it stands there.
fn page_slot(pages: &Vec<Page>, name: &str) -> (r: (usize, bool))
    ensures
        is_slot(page_names(pages_view(pages@)), name@, r.0 as int),
        r.1 <==> (r.0 < pages.len() && pages@[r.0 as int].name@ == name@),
{
    let mut i: usize = 0;
    while i < pages.len()
        invariant
            i <= pages.len(),
            forall|j: int|
                0 <= j < i ==> text_lt(#[trigger] page_names(pages_view(pages@))[j], name@),
        decreases pages.len() - i,
    {
        match rank_text(pages[i].name.as_str(), name) {
            Rank::Before => {},
            Rank::Same => {
                proof {
                    lemma_text_lt_irreflexive(name@);
                }
                return (i, true);
            },
            Rank::After => {
                proof {
                    lemma_text_lt_irreflexive(name@);
                    if text_lt(pages@[i as int].name@, name@) {
                        lemma_text_lt_transitive(name@, pages@[i as int].name@, name@);
                    }
                }
                return (i, false);
            },
        }
        i += 1;
    }
    (i, false)
}

/// Finds the slot of `key` among the folders, and whether it stands there.
fn folder_slot(folders: &Vec<Folder>, key: &str) -> (r: (usize, bool))
    ensures
        is_slot(folder_keys(folders_view(folders@)), key@, r.0 as int),
        r.1 <==> (r.0 < folders.len() && folders@[r.0 as int].key@ == key@),
{
    let mut i: usize = 0;
    while i < folders.len()
        invariant
            i <= folders.len(),
            forall|j: int|
                0 <= j < i ==> text_lt(#[trigger] folder_keys(folders_view(folders@))[j], key@),
        decreases folders.len() - i,
    {
        match rank_text(folders[i].key.as_str(), key) {
            Rank::Before => {},
            Rank::Same => {
                proof {
                    lemma_text_lt_irreflexive(key@);
                }
                return (i, true);
            },
            Rank::After => {
                proof {
                    lemma_text_lt_irreflexive(key@);
                    if text_lt(folders@[i as int].key@, key@) {
                        lemma_text_lt_transitive(key@, folders@[i as int].key@, key@);
                    }
                }
                return (i, false);
            },
        }
        i += 1;
    }
    (i, false)
}

/// Whether the names of the pages ascend strictly.
fn pages_ascend(pages: &Vec<Page>) -> (r: bool)
    ensures
        r == strictly_ascending(page_names(pages_view(pages@))),
{
    let ghost names = page_names(pages_view(pages@));
    let mut i: usize = 1;
    while i < pages.len()
        invariant
            1 <= i,
            names == page_names(pages_view(pages@)),
            forall|a: int, b: int|
                0 <= a < b < i && b < names.len() ==> text_lt(names[a], names[b]),
        decreases pages.len() - i,
    {
        match rank_text(pages[i - 1].name.as_str(), pages[i].name.as_str()) {
            Rank::Before => {
                proof {
                    assert forall|a: int, b: int|
                        0 <= a < b < i + 1 && b < names.len() implies text_lt(
                        names[a],
                        names[b],
                    ) by {
                        if b == i && a < i - 1 {
                            assert(text_lt(names[a], names[i - 1]));
                            lemma_text_lt_transitive(names[a], names[i - 1], names[i as int]);
                        }
                    }
                }
            },
            _ => {
                proof {
                    assert(!text_lt(names[i - 1], names[i as int]));
                }
                return false;
            },
        }
        i += 1;
    }
    true
}

/// Whether the keys of the folders ascend strictly and each folder's page
/// names do.
fn folders_well_formed(folders: &Vec<Folder>) -> (r: bool)
    ensures
        r == model_wf(folders_view(folders@)),
{
    let ghost model = folders_view(folders@);
    let ghost keys = folder_keys(model);
    let mut i: usize = 0;
    while i < folders.len()
        invariant
            i <= folders.len(),
            model == folders_view(folders@),
            keys == folder_keys(model),
            forall|a: int, b: int| 0 <= a < b < i ==> text_lt(keys[a], keys[b]),
            forall|a: int| 0 <= a < i ==> strictly_ascending(page_names(#[trigger] model[a].pages)),
        decreases folders.len() - i,
    {
        if !pages_ascend(&folders[i].pages) {
            proof {
                assert(model[i as int].pages == pages_view(folders@[i as int].pages@));
            }
            return false;
        }
        if i > 0 {
            match rank_text(folders[i - 1].key.as_str(), folders[i].key.as_str()) {
                Rank::Before => {
                    proof {
                        assert forall|a: int, b: int| 0 <= a < b < i + 1 implies text_lt(
                            keys[a],
                            keys[b],
                        ) by {
                            if b == i && a < i - 1 {
                                assert(text_lt(keys[a], keys[i - 1]));
                                lemma_text_lt_transitive(keys[a], keys[i - 1], keys[i as int]);
                            }
                        }
                    }
                },
                _ => {
                    proof {
                        assert(!text_lt(keys[i - 1], keys[i as int]));
                    }
                    return false;
                },
            }
        }
        proof {
            assert(model[i as int].pages == pages_view(folders@[i as int].pages@));
        }
        i += 1;
    }
    true
}

/// A document: the decrypted content of a store.
#[derive(Debug)]
pub struct Document {
    folders: Vec<Folder>,
}

impl View for Document {
    type V = DocumentMap;

    open spec fn view(&self) -> DocumentMap {
        folders_map(self.model())
    }
}

impl Document {
    /// The folders of the document in order, each with its pages in order.
    pub closed spec fn model(&self) -> Seq<FolderModel> {
        folders_view(self.folders@)
    }

    /// The invariant that every document meets.
    #[verifier::type_invariant]
    pub open spec fn wf(&self) -> bool {
        model_wf(self.model())
    }

    /// A document with no folders.
    pub fn create_empty() -> (d: Document)
        ensures
            d.model() == Seq::<FolderModel>::empty(),
            d@ == Map::<Seq<char>, FolderMap>::empty(),
    {
        let d = Document { folders: Vec::new() };
        proof {
            assert(d.model() =~= Seq::<FolderModel>::empty());
            assert(d@ =~= Map::<Seq<char>, FolderMap>::empty());
        }
        d
    }

    /// The document that consists of the given folders, if they are in
    /// strictly ascending order of their keys and each folder's pages are in
    /// strictly ascending order of their names.
    pub fn from_folders(folders: Vec<Folder>) -> (r: Option<Document>)
        ensures
            r is Some <==> model_wf(folders_view(folders@)),
            r matches Some(d) ==> d.model() == folders_view(folders@),
    {
        if folders_well_formed(&folders) {
            Some(Document { folders })
        } else {
            None
        }
    }

    /// The folders of the document, in ascending order of their keys.
    pub fn folders(&self) -> (r: &Vec<Folder>)
        ensures
            folders_view(r@) == self.model(),
            model_wf(self.model()),
    {
        proof {
            use_type_invariant(self);
        }
        &self.folders
    }

    /// A copy of this document.
    pub fn duplicate(&self) -> (r: Document)
        ensures
            r.model() == self.model(),
    {
        proof {
            use_type_invariant(self);
        }
        let mut folders: Vec<Folder> = Vec::new();
        duplicate_folders(&self.folders, 0, self.folders.len(), &mut folders);
        proof {
            assert(folders_view(folders@) =~= folders_view(self.folders@));
        }
        Document { folders }
    }

    /// Whether two documents have the same content. Documents of the same
    /// content have the same folders and pages in the same order.
    pub fn equals(&self, other: &Document) -> (same: bool)
        ensures
            same == (self@ == other@),
            same == (self.model() == other.model()),
    {
        proof {
            use_type_invariant(self);
            use_type_invariant(other);
            if self@ == other@ {
                lemma_model_determined(self.model(), other.model());
            }
        }
        same_folders(&self.folders, &other.folders)
    }

    /// The keys of all folders, in ascending order.
    pub fn list_folders(&self) -> (r: Vec<String>)
        ensures
            texts(r@) == folder_keys(self.model()),
            strictly_ascending(texts(r@)),
            forall|k: Seq<char>| self@.dom().contains(k) <==> texts(r@).contains(k),
    {
        proof {
            use_type_invariant(self);
        }
        let mut keys: Vec<String> = Vec::new();
        let mut i: usize = 0;
        while i < self.folders.len()
            invariant
                i <= self.folders.len(),
                texts(keys@) == folder_keys(self.model()).take(i as int),
            decreases self.folders.len() - i,
        {
            let ghost before = keys@;
            keys.push(self.folders[i].key.clone());
            proof {
                assert(texts(keys@) =~= texts(before).push(self.folders@[i as int].key@));
                assert(folder_keys(self.model()).take(i + 1) =~= folder_keys(self.model()).take(
                    i as int,
                ).push(self.folders@[i as int].key@));
            }
            i += 1;
        }
        proof {
            assert(folder_keys(self.model()).take(i as int) =~= folder_keys(self.model()));
        }
        keys
    }

    /// The pages of a folder as pairs of name and creation time, in
    /// ascending order of the names.
    pub fn list_pages(&self, folder_key: &str) -> (r: Result<Vec<(String, String)>, ModelError>)
        ensures
            match r {
                Ok(list) => {
                    &&& self@.dom().contains(folder_key@)
                    &&& strictly_ascending(Seq::new(list@.len(), |i: int| list@[i].0@))
                    &&& forall|n: Seq<char>|
                        self@[folder_key@].dom().contains(n) <==> exists|i: int|
                            0 <= i < list@.len() && list@[i].0@ == n
                    &&& forall|i: int|
                        0 <= i < list@.len() ==> self@[folder_key@][#[trigger] list@[i].0@]
                            .created_at == list@[i].1@
                },
                Err(e) => e == ModelError::FolderNotFound && !self@.dom().contains(folder_key@),
            },
    {
        proof {
            use_type_invariant(self);
        }
        let (fi, found) = folder_slot(&self.folders, folder_key);
        proof {
            lemma_slot_decides(folder_keys(self.model()), folder_key@, fi as int);
        }
        if !found {
            return Err(ModelError::FolderNotFound);
        }
        let pages = &self.folders[fi].pages;
        let ghost folder = self.model()[fi as int];
        let ghost names = page_names(folder.pages);
        let ghost datas = folder.pages.map_values(|p: PageModel| page_data(p));
        proof {
            assert(folder.pages == pages_view(pages@));
            lemma_keyed_map_at(
                folder_keys(self.model()),
                self.model().map_values(|f: FolderModel| pages_map(f.pages)),
                fi as int,
            );
            assert(self@[folder_key@] == pages_map(folder.pages));
        }
        let mut list: Vec<(String, String)> = Vec::new();
        let mut i: usize = 0;
        while i < pages.len()
            invariant
                i <= pages.len(),
                names == page_names(pages_view(pages@)),
                list@.len() == i,
                forall|j: int|
                    0 <= j < i ==> (#[trigger] list@[j]).0@ == names[j] && list@[j].1@
                        == pages@[j].created_at@,
            decreases pages.len() - i,
        {
            list.push((pages[i].name.clone(), pages[i].created_at.clone()));
            i += 1;
        }
        proof {
            let listed = Seq::new(list@.len(), |i: int| list@[i].0@);
            assert(listed =~= names);
            assert forall|n: Seq<char>|
                self@[folder_key@].dom().contains(n) <==> exists|i: int|
                    0 <= i < list@.len() && list@[i].0@ == n by {
                if names.contains(n) {
                    let j = names.index_of(n);
                    assert(0 <= j < list@.len() && list@[j].0@ == n);
                }
                if exists|i: int| 0 <= i < list@.len() && list@[i].0@ == n {
                    let j = choose|i: int| 0 <= i < list@.len() && list@[i].0@ == n;
                    assert(names[j] == n);
                }
            }
            assert forall|i: int| 0 <= i < list@.len() implies self@[folder_key@][#[trigger] list@[i]
                .0@].created_at == list@[i].1@ by {
                lemma_keyed_map_at(names, datas, i);
            }
        }
        Ok(list)
    }

    /// The content of a page.
    pub fn get_page_content(&self, folder_key: &str, page_name: &str) -> (r: Result<
        String,
        ModelError,
    >)
        ensures
            match r {
                Ok(content) => has_page(self@, folder_key@, page_name@) && content@
                    == self@[folder_key@][page_name@].content,
                Err(ModelError::FolderNotFound) => !self@.dom().contains(folder_key@),
                Err(ModelError::PageNotFound) => self@.dom().contains(folder_key@) && !has_page(
                    self@,
                    folder_key@,
                    page_name@,
                ),
                Err(ModelError::DuplicateName) => false,
            },
    {
        proof {
            use_type_invariant(self);
        }
        let (fi, found) = folder_slot(&self.folders, folder_key);
        proof {
            lemma_slot_decides(folder_keys(self.model()), folder_key@, fi as int);
        }
        if !found {
            return Err(ModelError::FolderNotFound);
        }
        let pages = &self.folders[fi].pages;
        let (pi, present) = page_slot(pages, page_name);
        proof {
            let folder = self.model()[fi as int];
            assert(folder.pages == pages_view(pages@));
            lemma_slot_decides(page_names(folder.pages), page_name@, pi as int);
            lemma_keyed_map_at(
                folder_keys(self.model()),
                self.model().map_values(|f: FolderModel| pages_map(f.pages)),
                fi as int,
            );
            if present {
                lemma_keyed_map_at(
                    page_names(folder.pages),
                    folder.pages.map_values(|p: PageModel| page_data(p)),
                    pi as int,
                );
            }
        }
        if !present {
            return Err(ModelError::PageNotFound);
        }
        Ok(pages[pi].content.clone())
    }
}

impl Document {
    /// The document with a new page in the folder of `folder_key`; the
    /// folder is created if the document has none under that key. Fails if
    /// the folder already has a page of that name.
    pub fn add_page(
        &self,
        folder_key: &str,
        page_name: &str,
        content: &str,
        created_at: &str,
    ) -> (r: Result<Document, ModelError>)
        ensures
            match r {
                Ok(d) => !has_page(self@, folder_key@, page_name@) && d@ == with_page(
                    self@,
                    folder_key@,
                    page_name@,
                    PageData { created_at: created_at@, content: content@ },
                ),
                Err(e) => e == ModelError::DuplicateName && has_page(
                    self@,
                    folder_key@,
                    page_name@,
                ),
            },
    {
        proof {
            use_type_invariant(self);
        }
        let ghost model = self.model();
        let (fi, found) = folder_slot(&self.folders, folder_key);
        proof {
            lemma_slot_decides(folder_keys(model), folder_key@, fi as int);
        }
        let page = Page {
            name: page_name.to_owned(),
            created_at: created_at.to_owned(),
            content: content.to_owned(),
        };
        let folders = if found {
            let old = &self.folders[fi];
            let (pi, present) = page_slot(&old.pages, page_name);
            proof {
                assert(model[fi as int].pages == pages_view(old.pages@));
                lemma_slot_decides(page_names(model[fi as int].pages), page_name@, pi as int);
            }
            if present {
                proof {
                    lemma_replace_content(model, fi as int, pi as int, content@);
                }
                return Err(ModelError::DuplicateName);
            }
            let ghost added = page@;
            let pages = splice_pages(&old.pages, pi, page, pi);
            let folder = Folder { key: old.key.clone(), pages };
            let folders = splice_folders(&self.folders, fi, folder, fi + 1);
            proof {
                assert(pages_view(pages@) =~= model[fi as int].pages.insert(pi as int, added));
                assert(folders_view(folders@) =~= folder_with_pages(
                    model,
                    fi as int,
                    model[fi as int].pages.insert(pi as int, added),
                ));
                lemma_add_page_to_folder(model, fi as int, pi as int, added);
            }
            folders
        } else {
            let ghost added = page@;
            let mut pages: Vec<Page> = Vec::new();
            pages.push(page);
            let folder = Folder { key: folder_key.to_owned(), pages };
            let folders = splice_folders(&self.folders, fi, folder, fi);
            proof {
                assert(pages_view(pages@) =~= seq![added]);
                assert(folders_view(folders@) =~= model.insert(
                    fi as int,
                    FolderModel { key: folder_key@, pages: seq![added] },
                ));
                lemma_add_page_to_new_folder(model, fi as int, folder_key@, added);
            }
            folders
        };
        Ok(Document { folders })
    }

    /// The document with the content of an existing page replaced. The
    /// page keeps its name and its creation time.
    pub fn update_page_content(
        &self,
        folder_key: &str,
        page_name: &str,
        new_content: &str,
    ) -> (r: Result<Document, ModelError>)
        ensures
            match r {
                Ok(d) => has_page(self@, folder_key@, page_name@) && d@ == with_content(
                    self@,
                    folder_key@,
                    page_name@,
                    new_content@,
                ),
                Err(ModelError::FolderNotFound) => !self@.dom().contains(folder_key@),
                Err(ModelError::PageNotFound) => self@.dom().contains(folder_key@) && !has_page(
                    self@,
                    folder_key@,
                    page_name@,
                ),
                Err(ModelError::DuplicateName) => false,
            },
    {
        proof {
            use_type_invariant(self);
        }
        let ghost model = self.model();
        let (fi, found) = folder_slot(&self.folders, folder_key);
        proof {
            lemma_slot_decides(folder_keys(model), folder_key@, fi as int);
        }
        if !found {
            return Err(ModelError::FolderNotFound);
        }
        let old = &self.folders[fi];
        let (pi, present) = page_slot(&old.pages, page_name);
        proof {
            assert(model[fi as int].pages == pages_view(old.pages@));
            lemma_slot_decides(page_names(model[fi as int].pages), page_name@, pi as int);
            lemma_replace_pages(model, fi as int, model[fi as int].pages);
        }
        if !present {
            return Err(ModelError::PageNotFound);
        }
        let page = Page {
            name: old.pages[pi].name.clone(),
            created_at: old.pages[pi].created_at.clone(),
            content: new_content.to_owned(),
        };
        let ghost changed = page@;
        let pages = splice_pages(&old.pages, pi, page, pi + 1);
        let folder = Folder { key: old.key.clone(), pages };
        let folders = splice_folders(&self.folders, fi, folder, fi + 1);
        proof {
            assert(changed == PageModel {
                name: model[fi as int].pages[pi as int].name,
                created_at: model[fi as int].pages[pi as int].created_at,
                content: new_content@,
            });
            assert(pages_view(pages@) =~= model[fi as int].pages.update(pi as int, changed));
            assert(folders_view(folders@) =~= folder_with_pages(
                model,
                fi as int,
                model[fi as int].pages.update(pi as int, changed),
            ));
            lemma_replace_content(model, fi as int, pi as int, new_content@);
        }
        Ok(Document { folders })
    }
}

impl PartialEq for Document {
    fn eq(&self, other: &Document) -> (same: bool) {
        self.equals(other)
    }
}

impl PartialEqSpecImpl for Document {
    open spec fn obeys_eq_spec() -> bool {
        true
    }

    open spec fn eq_spec(&self, other: &Document) -> bool {
        self@ == other@
    }
}

impl Eq for Document {

}

impl Clone for Document {
    fn clone(&self) -> (r: Document)
        ensures
            r.model() == self.model(),
    {
        self.duplicate()
    }
}

} // verus!
