//! What the commands show and do with shared items: the pieces of each line of
//! `tapeer list`, and the steps that `tapeer get` takes for the chosen item.
use vstd::prelude::*;
use vstd::utf8::{decode_utf8, encode_utf8, encode_utf8_decode_utf8, is_char_boundary};
use crate::models::{ItemType, SharedItem};
use crate::text::{decimal, ends_with_char, ends_with_char_text, push_decimal};

verus! {

/// The most bytes of a text snippet that the list shows before cutting it.
pub const PREVIEW_BYTES: usize = 60;

/// The bytes of the id that name a saved snippet file.
pub const ID_PREFIX_BYTES: usize = 8;

/// The list number label of the item at position `idx`: `#` and `idx + 1`.
pub fn entry_number(idx: usize) -> (label: String)
    requires
        idx < usize::MAX,
    ensures
        label@ == "#"@ + decimal(idx as nat + 1),
{
    let mut label = String::from_str("#");
    push_decimal(&mut label, (idx + 1) as u64);
    label
}

/// The icon and the badge that the list shows for an item type.
pub fn type_badge(item_type: ItemType) -> (badge: (&'static str, &'static str))
    ensures
        item_type == ItemType::File ==> badge.0@ == "📦"@ && badge.1@ == "Archivo"@,
        item_type == ItemType::Text ==> badge.0@ == "📝"@ && badge.1@ == "Texto  "@,
{
    match item_type {
        ItemType::File => ("📦", "Archivo"),
        ItemType::Text => ("📝", "Texto  "),
    }
}

/// The count shown in the list header: `({n} elementos activos)`.
pub fn active_count_label(n: usize) -> (label: String)
    ensures
        label@ == "("@ + decimal(n as nat) + " elementos activos)"@,
{
    let mut label = String::from_str("(");
    push_decimal(&mut label, n as u64);
    label.append(" elementos activos)");
    label
}

/// The preview of a snippet: whole when its UTF-8 encoding has at most 60 bytes, else its
/// first 60 bytes followed by `...`.
pub open spec fn preview_text(content: Seq<char>) -> Seq<char> {
    let bytes = encode_utf8(content);
    if bytes.len() > PREVIEW_BYTES {
        decode_utf8(bytes.subrange(0, PREVIEW_BYTES as int)) + "..."@
    } else {
        content
    }
}

/// The preview of a text snippet in the list (see `preview_text`). Cutting inside a
/// character is not possible: the cut must fall on a character boundary.
pub fn content_preview(content: &str) -> (preview: String)
    requires
        encode_utf8(content@).len() > PREVIEW_BYTES ==> is_char_boundary(
            encode_utf8(content@),
            PREVIEW_BYTES as int,
        ),
    ensures
        preview@ == preview_text(content@),
{
    if content.as_bytes().len() > PREVIEW_BYTES {
        let (head, _) = content.split_at(PREVIEW_BYTES);
        proof {
            encode_utf8_decode_utf8(head@);
            assert(encode_utf8(head@) == encode_utf8(head@));
        }
        let mut preview = String::from_str(head);
        preview.append("...");
        preview
    } else {
        String::from_str(content)
    }
}

/// An output path given as text names a folder when it ends with `'/'` or `'\\'`.
pub open spec fn looks_like_folder(path_text: Seq<char>) -> bool {
    ends_with_char(path_text, '/') || ends_with_char(path_text, '\\')
}

/// `true` when the output path, as text, ends with `'/'` or `'\\'`.
pub fn path_text_looks_like_folder(path_text: &str) -> (res: bool)
    ensures
        res == looks_like_folder(path_text@),
        res == (path_text@.len() > 0 && (path_text@.last() == '/' || path_text@.last() == '\\')),
{
    ends_with_char_text(path_text, '/') || ends_with_char_text(path_text, '\\')
}

/// An output path names a folder exactly when its last character is `'/'` or `'\\'`: a
/// separator earlier in the path does not count.
pub proof fn lemma_folder_iff_trailing_separator(p: Seq<char>)
    ensures
        looks_like_folder(p) == (p.len() > 0 && (p.last() == '/' || p.last() == '\\')),
{
}

/// A path made of a folder part, a separator and a file name without separators names a
/// file, not a folder.
pub proof fn lemma_file_name_after_separator(dir: Seq<char>, sep: char, name: Seq<char>)
    requires
        sep == '/' || sep == '\\',
        name.len() > 0,
        forall|i: int| 0 <= i < name.len() ==> #[trigger] name[i] != '/' && name[i] != '\\',
    ensures
        !looks_like_folder(dir + seq![sep] + name),
{
    let p = dir + seq![sep] + name;
    assert(p.last() == name[name.len() - 1]);
}

/// The name of the file that a snippet with this id is saved in, inside a folder: the first
/// 8 bytes of the id and `.txt`.
pub fn snippet_file_name(id: &str) -> (name: String)
    requires
        is_char_boundary(encode_utf8(id@), ID_PREFIX_BYTES as int),
    ensures
        encode_utf8(name@) == encode_utf8(id@).subrange(0, ID_PREFIX_BYTES as int) + encode_utf8(
            ".txt"@,
        ),
        name@ == decode_utf8(encode_utf8(id@).subrange(0, ID_PREFIX_BYTES as int)) + ".txt"@,
{
    let (head, _) = id.split_at(ID_PREFIX_BYTES);
    proof {
        encode_utf8_decode_utf8(head@);
    }
    let mut name = String::from_str(head);
    name.append(".txt");
    proof {
        lemma_encode_utf8_concat(head@, ".txt"@);
    }
    name
}

/// The UTF-8 encoding of a concatenation is the concatenation of the encodings.
pub proof fn lemma_encode_utf8_concat(a: Seq<char>, b: Seq<char>)
    ensures
        encode_utf8(a + b) == encode_utf8(a) + encode_utf8(b),
    decreases a.len(),
{
    if a.len() > 0 {
        lemma_encode_utf8_concat(a.drop_first(), b);
        assert((a + b).drop_first() =~= a.drop_first() + b);
        assert((a + b)[0] == a[0]);
    } else {
        assert(a + b =~= b);
    }
    assert(encode_utf8(a + b) =~= encode_utf8(a) + encode_utf8(b));
}

/// Where `tapeer get` saves the chosen item.
#[derive(Debug, Clone)]
pub enum SaveTarget {
    /// At the output path as given.
    AsGiven,
    /// In the output folder, under this file name.
    IntoFolder(String),
    /// In the output folder, under the snippet's file name (`snippet_file_name` of its id).
    SnippetIntoFolder,
    /// In the current directory, under this file name.
    InCurrentDir(String),
}

/// The steps that `tapeer get` takes for the chosen item, in this order: get the text (from
/// the item, or from the server when `fetch_snippet`), copy it to the clipboard, save it (a
/// snippet saved into a folder is named by `snippet_file_name`), print it; for a file: download it, save it, copy its path to the clipboard.
#[derive(Debug, Clone)]
pub struct GetPlan {
    /// The snippet's text is not in the list and is fetched with `GET /snippet/:id`.
    pub fetch_snippet: bool,
    /// The snippet's text is copied to the clipboard.
    pub copy_text: bool,
    /// Where the text or the file is written, if anywhere.
    pub save: Option<SaveTarget>,
    /// The snippet's text is printed.
    pub print_text: bool,
    /// The file's bytes are downloaded with `GET /download/:id`.
    pub download: bool,
    /// The saved file's path is copied to the clipboard (failures ignored).
    pub copy_path: bool,
}

/// Decides what `tapeer get` does with `item`: `has_output` tells whether `-o` was given,
/// `output_is_folder` whether that path is an existing folder or ends with a separator, and
/// `copy` whether `-c` was given.
pub fn plan_get(item: &SharedItem, has_output: bool, output_is_folder: bool, copy: bool) -> (plan:
    GetPlan)
    ensures
        item.item_type == ItemType::Text ==> {
            &&& plan.fetch_snippet == item.content is None
            &&& plan.copy_text == copy
            &&& plan.print_text == (!has_output && !copy)
            &&& !plan.download
            &&& !plan.copy_path
            &&& match plan.save {
                None => !has_output,
                Some(SaveTarget::AsGiven) => has_output && !output_is_folder,
                Some(SaveTarget::SnippetIntoFolder) => has_output && output_is_folder,
                Some(SaveTarget::IntoFolder(_)) => false,
                Some(SaveTarget::InCurrentDir(_)) => false,
            }
        },
        item.item_type == ItemType::File ==> {
            &&& !plan.fetch_snippet
            &&& !plan.copy_text
            &&& !plan.print_text
            &&& plan.download
            &&& plan.copy_path == copy
            &&& match plan.save {
                None => false,
                Some(SaveTarget::AsGiven) => has_output && !output_is_folder,
                Some(SaveTarget::IntoFolder(name)) => has_output && output_is_folder && name@
                    == item.original_name@,
                Some(SaveTarget::InCurrentDir(name)) => !has_output && name@
                    == item.original_name@,
                Some(SaveTarget::SnippetIntoFolder) => false,
            }
        },
{
    match item.item_type {
        ItemType::Text => {
            let save = if has_output {
                if output_is_folder {
                    Some(SaveTarget::SnippetIntoFolder)
                } else {
                    Some(SaveTarget::AsGiven)
                }
            } else {
                None
            };
            GetPlan {
                fetch_snippet: item.content.is_none(),
                copy_text: copy,
                save,
                print_text: !has_output && !copy,
                download: false,
                copy_path: false,
            }
        },
        ItemType::File => {
            let save = if has_output {
                if output_is_folder {
                    SaveTarget::IntoFolder(item.original_name.clone())
                } else {
                    SaveTarget::AsGiven
                }
            } else {
                SaveTarget::InCurrentDir(item.original_name.clone())
            };
            GetPlan {
                fetch_snippet: false,
                copy_text: false,
                save: Some(save),
                print_text: false,
                download: true,
                copy_path: copy,
            }
        },
    }
}

} // verus!
