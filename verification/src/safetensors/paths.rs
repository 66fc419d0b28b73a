//! Names and relative paths of checkpoint files.

use crate::error;
use crate::error::{ErrorView, ParserError};
use crate::ordered;
use crate::ordered::StringMap;
use crate::safetensors::manifest;
use crate::safetensors::manifest::{ManifestView, SafetensorsManifest};
use crate::safetensors::metadata;
use crate::safetensors::metadata::{
    parse_unreferenced_shards_metadata, INDEX_UNREFERENCED_SHARDS_KEY,
};
use crate::safetensors::record;
use crate::safetensors::record::RecordView;
use crate::safetensors::validate;
use crate::safetensors::validate::model_load;
use crate::text;
use vstd::prelude::*;

verus! {

// ---------------------------------------------------------------------------
// File names
// ---------------------------------------------------------------------------
/// The file name is that of a sharded checkpoint's index.
pub open spec fn names_index(file_name: Seq<char>) -> bool {
    text::ends_with_text(file_name, ".safetensors.index.json"@)
}

/// The file name is that of a shard: it has a stem and the extension `safetensors`.
pub open spec fn names_shard(file_name: Seq<char>) -> bool {
    &&& text::ends_with_text(file_name, ".safetensors"@)
    &&& file_name.len() > ".safetensors"@.len()
}

/// The file name is that of a sharded checkpoint's index.
pub fn is_safetensors_index(file_name: &str) -> (r: bool)
    ensures
        r == names_index(file_name@),
{
    let chars = text::chars_of(file_name);
    text::ends_with(chars.as_slice(), ".safetensors.index.json")
}

/// The file name is that of a shard.
pub fn has_safetensors_extension(file_name: &str) -> (r: bool)
    ensures
        r == names_shard(file_name@),
{
    proof {
        reveal_strlit(".safetensors");
    }
    let chars = text::chars_of(file_name);
    chars.len() > 12 && text::ends_with(chars.as_slice(), ".safetensors")
}

/// What a checkpoint path names.
#[derive(Debug, Clone, Copy, PartialEq, Eq)]
pub enum CheckpointKind {
    /// A directory of shards.
    Directory,
    /// A Hugging Face index file.
    Index,
    /// A single shard.
    SingleFile,
}

/// What a checkpoint path names.
pub open spec fn kind_of(path: Seq<char>, file_name: Seq<char>, is_dir: bool) -> Result<
    CheckpointKind,
    ErrorView,
> {
    if is_dir {
        Ok(CheckpointKind::Directory)
    } else if names_index(file_name) {
        Ok(CheckpointKind::Index)
    } else if names_shard(file_name) {
        Ok(CheckpointKind::SingleFile)
    } else {
        Err(
            ErrorView::UnsupportedFormat {
                path,
                reason: "expected .safetensors file, .safetensors.index.json file, or directory, got '"@
                    + path + "'"@,
            },
        )
    }
}

/// Tell from a checkpoint path what it names.
pub fn checkpoint_kind(path: &str, file_name: &str, is_dir: bool) -> (r: Result<
    CheckpointKind,
    ParserError,
>)
    ensures
        crate::gguf::limits::outcome(r) == kind_of(path@, file_name@, is_dir),
{
    if is_dir {
        Ok(CheckpointKind::Directory)
    } else if is_safetensors_index(file_name) {
        Ok(CheckpointKind::Index)
    } else if has_safetensors_extension(file_name) {
        Ok(CheckpointKind::SingleFile)
    } else {
        Err(
            error::unsupported(
                path,
                text::concat3(
                    "expected .safetensors file, .safetensors.index.json file, or directory, got '",
                    path,
                    "'",
                ),
            ),
        )
    }
}

/// The index file among the names found in a directory; several are refused.
pub open spec fn chosen_index(root: Seq<char>, names: Seq<Seq<char>>) -> Result<
    Option<Seq<char>>,
    ErrorView,
> {
    if names.len() == 0 {
        Ok(None)
    } else if names.len() == 1 {
        Ok(Some(names[0]))
    } else {
        Err(
            ErrorView::UnsupportedFormat {
                path: root,
                reason: "multiple Safetensors index files found in '"@ + root + "': "@
                    + text::joined(names, ", "@)
                    + "; pass the intended index file explicitly"@,
            },
        )
    }
}

/// The file name, if any, or the error.
pub open spec fn choice(r: Result<Option<String>, ParserError>) -> Result<
    Option<Seq<char>>,
    ErrorView,
> {
    match r {
        Ok(name) => Ok(manifest::optional_text(name)),
        Err(e) => Err(e@),
    }
}

/// Choose the index file of a directory from the names of the index files in it, which
/// are in order.
pub fn choose_index_file(root: &str, names: &Vec<String>) -> (r: Result<
    Option<String>,
    ParserError,
>)
    ensures
        choice(r) == chosen_index(root@, text::views(names@)),
{
    if names.len() == 0 {
        return Ok(None);
    }
    if names.len() == 1 {
        return Ok(Some(names[0].clone()));
    }
    let listed = text::join(names, ", ");
    Err(
        error::unsupported(
            root,
            text::concat5(
                "multiple Safetensors index files found in '",
                root,
                "': ",
                listed.as_str(),
                "; pass the intended index file explicitly",
            ),
        ),
    )
}

// ---------------------------------------------------------------------------
// Shard references
// ---------------------------------------------------------------------------
/// How the host writes paths.
#[derive(Debug, Clone, Copy, PartialEq, Eq, Structural)]
pub enum PathStyle {
    /// Components stand between slashes.
    Unix,
    /// Components stand between slashes or backslashes, and a path may begin with a drive.
    Windows,
}

/// What separates the components of a path.
pub open spec fn separators(style: PathStyle) -> Seq<char> {
    match style {
        PathStyle::Unix => seq!['/'],
        PathStyle::Windows => seq!['/', '\\'],
    }
}

/// The components of a path: what stands between the separators.
pub open spec fn components(style: PathStyle, path: Seq<char>) -> Seq<Seq<char>> {
    text::pieces(path, separators(style))
}

/// The text begins with a drive: a letter and a colon.
pub open spec fn names_drive(style: PathStyle, s: Seq<char>) -> bool {
    &&& style is Windows
    &&& s.len() >= 2
    &&& s[1] == ':'
    &&& ('a' <= s[0] && s[0] <= 'z') || ('A' <= s[0] && s[0] <= 'Z')
}

/// The path begins with a separator or a drive.
pub open spec fn is_anchored(style: PathStyle, path: Seq<char>) -> bool {
    (path.len() > 0 && separators(style).contains(path[0])) || names_drive(style, path)
}

/// Where a path leads: from the checkpoint directory, or from a drive that it turns to.
#[verifier::ext_equal]
pub struct Place {
    pub drive: Seq<char>,
    pub parts: Seq<Seq<char>>,
}

/// The path of a place.
pub open spec fn path_of(at: Place) -> Seq<char> {
    at.drive + text::joined(at.parts, "/"@)
}

/// Where a component leads; `None` where it leaves the directory. A component that names a
/// drive turns to that drive, whatever stands before it.
pub open spec fn stepped(style: PathStyle, at: Place, part: Seq<char>) -> Option<Place> {
    if part == "."@ {
        Some(at)
    } else if part == ".."@ {
        if at.parts.len() == 0 {
            None
        } else {
            Some(Place { parts: at.parts.drop_last(), ..at })
        }
    } else if names_drive(style, part) {
        Some(
            Place {
                drive: part.take(2),
                parts: if part.len() > 2 {
                    seq![part.skip(2)]
                } else {
                    Seq::empty()
                },
            },
        )
    } else {
        Some(Place { parts: at.parts.push(part), ..at })
    }
}

/// Where the first `n` components lead from the checkpoint directory; `None` where they
/// leave it.
pub open spec fn walked(style: PathStyle, parts: Seq<Seq<char>>, n: nat) -> Option<Place>
    decreases n,
{
    if n == 0 || n > parts.len() {
        Some(Place { drive: Seq::empty(), parts: Seq::empty() })
    } else {
        match walked(style, parts, (n - 1) as nat) {
            None => None,
            Some(at) => stepped(style, at, parts[n - 1]),
        }
    }
}

/// The refusal of a shard reference.
pub open spec fn reference_error(
    index_path: Seq<char>,
    relative: Seq<char>,
    problem: Seq<char>,
) -> ErrorView {
    validate::load_error(index_path, "index shard path '"@ + relative + "'"@ + problem)
}

/// The path, below the checkpoint directory, that a shard reference of an index names.
pub open spec fn normalized(
    style: PathStyle,
    index_path: Seq<char>,
    relative: Seq<char>,
) -> Result<Seq<char>, ErrorView> {
    if is_anchored(style, relative) {
        Err(
            reference_error(
                index_path,
                relative,
                " must be checkpoint-relative, not absolute"@,
            ),
        )
    } else {
        match walked(style, components(style, relative), components(style, relative).len()) {
            None => Err(
                reference_error(
                    index_path,
                    relative,
                    " must stay within the checkpoint directory"@,
                ),
            ),
            Some(at) => if at.drive.len() == 0 && at.parts.len() == 0 {
                Err(reference_error(index_path, relative, " must name a Safetensors shard"@))
            } else {
                Ok(path_of(at))
            },
        }
    }
}

fn bad_reference(index_path: &str, relative: &str, problem: &str) -> (r: ParserError)
    ensures
        r@ == reference_error(index_path@, relative@, problem@),
{
    model_load(index_path, text::concat4("index shard path '", relative, "'", problem))
}

fn separator_chars(style: PathStyle) -> (r: Vec<char>)
    ensures
        r@ == separators(style),
{
    let r: Vec<char> = match style {
        PathStyle::Unix => vec!['/'],
        PathStyle::Windows => vec!['/', '\\'],
    };
    assert(r@ =~= separators(style));
    r
}

fn has_drive(style: PathStyle, chars: &[char]) -> (r: bool)
    ensures
        r == names_drive(style, chars@),
{
    style == PathStyle::Windows && chars.len() >= 2 && chars[1] == ':' && (('a' <= chars[0]
        && chars[0] <= 'z') || ('A' <= chars[0] && chars[0] <= 'Z'))
}

fn is_separator(style: PathStyle, c: char) -> (r: bool)
    ensures
        r == separators(style).contains(c),
{
    proof {
        let all = separators(style);
        assert(all[0] == '/');
        assert(style is Windows ==> all[1] == '\\');
        if all.contains(c) {
            let i = all.index_of(c);
            assert(all[i] == c);
        }
    }
    c == '/' || (style == PathStyle::Windows && c == '\\')
}

proof fn lemma_walk_stops(style: PathStyle, parts: Seq<Seq<char>>, n: nat)
    requires
        n <= parts.len(),
        walked(style, parts, n) is None,
    ensures
        walked(style, parts, parts.len()) is None,
    decreases parts.len() - n,
{
    if n < parts.len() {
        lemma_walk_stops(style, parts, n + 1);
    }
}

/// Resolve an index `weight_map` shard reference to a path below the checkpoint
/// directory, written with slashes.
///
/// Absolute paths and `..` segments that would leave the directory are refused. Other
/// `..` and `.` segments are resolved, so that `nested/../model.safetensors` stays
/// portable and checkpoint-relative.
pub fn index_shard_path(style: PathStyle, index_path: &str, relative: &str) -> (r: Result<
    String,
    ParserError,
>)
    ensures
        error::viewed(r) == normalized(style, index_path@, relative@),
{
    let chars = text::chars_of(relative);
    if (chars.len() > 0 && is_separator(style, chars[0])) || has_drive(style, chars.as_slice()) {
        return Err(
            bad_reference(index_path, relative, " must be checkpoint-relative, not absolute"),
        );
    }
    let breaks = separator_chars(style);
    let parts = text::split(chars.as_slice(), breaks.as_slice());
    let ghost all = components(style, relative@);
    let mut drive = String::new();
    let mut at: Vec<String> = Vec::new();
    let mut i: usize = 0;
    assert(drive@ =~= Seq::empty());
    assert(text::views(at@) =~= Seq::empty());
    while i < parts.len()
        invariant
            i <= parts@.len(),
            all == components(style, relative@),
            all == text::piece_views(parts@),
            !is_anchored(style, relative@),
            walked(style, all, i as nat) == Some(Place { drive: drive@, parts: text::views(at@) }),
        decreases parts@.len() - i,
    {
        let ghost before = text::views(at@);
        assert(all[i as int] == parts@[i as int]@);
        let part = text::string_of(parts[i].as_slice());
        if text::equal(part.as_str(), ".") {
        } else if text::equal(part.as_str(), "..") {
            if at.len() == 0 {
                proof {
                    lemma_walk_stops(style, all, (i + 1) as nat);
                }
                return Err(
                    bad_reference(
                        index_path,
                        relative,
                        " must stay within the checkpoint directory",
                    ),
                );
            }
            at.pop();
            assert(text::views(at@) =~= before.drop_last());
        } else if has_drive(style, parts[i].as_slice()) {
            let end: usize = parts[i].len();
            drive = text::string_of_range(parts[i].as_slice(), 0, 2);
            assert(drive@ =~= part@.take(2));
            at = Vec::new();
            if end > 2 {
                let name = text::string_of_range(parts[i].as_slice(), 2, end);
                assert(name@ =~= part@.skip(2));
                at.push(name);
                assert(text::views(at@) =~= seq![part@.skip(2)]);
            } else {
                assert(text::views(at@) =~= Seq::empty());
            }
        } else {
            at.push(part);
            assert(text::views(at@) =~= before.push(part@));
        }
        i += 1;
    }
    let path = text::concat2(drive.as_str(), text::join(&at, "/").as_str());
    if at.len() == 0 {
        let anchor = text::chars_of(drive.as_str());
        if anchor.len() == 0 {
            return Err(bad_reference(index_path, relative, " must name a Safetensors shard"));
        }
    }
    Ok(path)
}

/// What was found at the path of a shard.
#[derive(Debug, Clone, Copy, PartialEq, Eq, Structural)]
pub enum ShardState {
    /// Nothing.
    Missing,
    /// Something other than a regular file.
    Irregular,
    /// A regular file outside the checkpoint directory, reached through a link.
    Outside,
    /// A regular file inside the checkpoint directory.
    Regular,
}

/// What becomes of a shard reference, given what was found: only a regular file inside the
/// checkpoint directory will do.
pub open spec fn acceptance(
    index_path: Seq<char>,
    relative: Seq<char>,
    shard_path: Seq<char>,
    state: ShardState,
) -> Result<(), ErrorView> {
    match state {
        ShardState::Missing => Err(ErrorView::MissingShard { shard: relative, path: index_path }),
        ShardState::Irregular => Err(
            reference_error(index_path, relative, " must name a regular Safetensors file"@),
        ),
        ShardState::Outside => Err(
            validate::load_error(
                shard_path,
                "Safetensors shard path must stay within the checkpoint directory"@,
            ),
        ),
        ShardState::Regular => Ok(()),
    }
}

/// Refuse a shard reference unless a regular file inside the checkpoint directory was
/// found.
pub fn accept_shard(index_path: &str, relative: &str, shard_path: &str, state: ShardState) -> (r:
    Result<(), ParserError>)
    ensures
        crate::gguf::limits::outcome(r) == acceptance(index_path@, relative@, shard_path@, state),
{
    match state {
        ShardState::Missing => Err(
            ParserError::MissingShard { shard: relative.to_owned(), path: index_path.to_owned() },
        ),
        ShardState::Irregular => Err(
            bad_reference(index_path, relative, " must name a regular Safetensors file"),
        ),
        ShardState::Outside => Err(
            model_load(
                shard_path,
                "Safetensors shard path must stay within the checkpoint directory".to_owned(),
            ),
        ),
        ShardState::Regular => Ok(()),
    }
}

// ---------------------------------------------------------------------------
// Overwrite guard
// ---------------------------------------------------------------------------
/// The shards of the tensors, in order.
pub open spec fn tensor_shards(tensors: Seq<RecordView>) -> Seq<Seq<char>> {
    Seq::new(tensors.len(), |i: int| tensors[i].source_shard)
}

/// The files of a checkpoint that its manifest names: the index, the shards of the
/// tensors and the unreferenced shards.
pub open spec fn named_files(m: ManifestView) -> Seq<Seq<char>> {
    (match m.checkpoint.index_file {
        Some(name) => seq![name],
        None => Seq::empty(),
    }) + tensor_shards(m.tensors) + (if m.checkpoint.metadata.contains_key(
        INDEX_UNREFERENCED_SHARDS_KEY@,
    ) {
        metadata::unreferenced(m.checkpoint.metadata[INDEX_UNREFERENCED_SHARDS_KEY@])
    } else {
        Seq::empty()
    })
}

fn add_name(names: &mut StringMap<()>, name: &String, Ghost(seen): Ghost<Seq<Seq<char>>>)
    requires
        forall|k: Seq<char>| #[trigger] old(names)@.contains_key(k) <==> seen.contains(k),
    ensures
        forall|k: Seq<char>| #[trigger]
            final(names)@.contains_key(k) <==> seen.push(name@).contains(k),
{
    let ghost before = names@;
    names.insert(name.clone(), ());
    let ghost after = seen.push(name@);
    assert forall|k: Seq<char>| #[trigger] names@.contains_key(k) <==> after.contains(k) by {
        assert(before.contains_key(k) <==> seen.contains(k));
        if seen.contains(k) {
            let j = seen.index_of(k);
            assert(after[j] == k);
        }
        if k == name@ {
            assert(after[seen.len() as int] == k);
        }
        if after.contains(k) {
            let j = after.index_of(k);
            if j < seen.len() {
                assert(seen[j] == k);
            }
        }
    }
}

/// The files of a checkpoint that a manifest must not overwrite, each once and in order.
pub fn checkpoint_files(manifest: &SafetensorsManifest) -> (r: Vec<String>)
    ensures
        text::lists(text::views(r@), named_files(manifest@)),
{
    let ghost shards = tensor_shards(manifest@.tensors);
    let mut names: StringMap<()> = StringMap::new();
    let ghost mut seen: Seq<Seq<char>> = Seq::empty();
    match &manifest.checkpoint.index_file {
        Some(name) => {
            add_name(&mut names, name, Ghost(seen));
            proof {
                seen = seen.push(name@);
            }
        },
        None => {},
    }
    let ghost index_part = seen;
    assert(index_part =~= (match manifest@.checkpoint.index_file {
        Some(name) => seq![name],
        None => Seq::empty(),
    }));
    let mut i: usize = 0;
    while i < manifest.tensors.len()
        invariant
            i <= manifest.tensors@.len(),
            shards == tensor_shards(manifest@.tensors),
            seen =~= index_part + shards.take(i as int),
            forall|k: Seq<char>| #[trigger] names@.contains_key(k) <==> seen.contains(k),
        decreases manifest.tensors@.len() - i,
    {
        let shard = &manifest.tensors[i].source_shard;
        assert(manifest@.tensors[i as int] == manifest.tensors@[i as int]@);
        assert(shards[i as int] == shard@);
        add_name(&mut names, shard, Ghost(seen));
        proof {
            seen = seen.push(shard@);
        }
        i += 1;
    }
    let ghost two_parts = seen;
    assert(two_parts =~= index_part + shards);
    let ghost table = manifest@.checkpoint.metadata;
    match manifest.checkpoint.metadata.get(INDEX_UNREFERENCED_SHARDS_KEY) {
        Some(encoded) => {
            let listed = parse_unreferenced_shards_metadata(encoded.as_str());
            let ghost rest = text::views(listed@);
            assert(rest == metadata::unreferenced(table[INDEX_UNREFERENCED_SHARDS_KEY@]));
            let mut j: usize = 0;
            while j < listed.len()
                invariant
                    j <= listed@.len(),
                    rest == text::views(listed@),
                    seen =~= two_parts + rest.take(j as int),
                    forall|k: Seq<char>| #[trigger] names@.contains_key(k) <==> seen.contains(k),
                decreases listed@.len() - j,
            {
                assert(rest[j as int] == listed@[j as int]@);
                add_name(&mut names, &listed[j], Ghost(seen));
                proof {
                    seen = seen.push(listed@[j as int]@);
                }
                j += 1;
            }
            assert(seen =~= two_parts + rest);
        },
        None => {},
    }
    assert(seen =~= named_files(manifest@));
    let r = names.keys();
    assert forall|k: Seq<char>|
        #![trigger text::views(r@).contains(k)]
        #![trigger named_files(manifest@).contains(k)]
        text::views(r@).contains(k) <==> named_files(manifest@).contains(k) by {
        assert(names@.contains_key(k) <==> seen.contains(k));
    }
    r
}

// ---------------------------------------------------------------------------
// Laws
// ---------------------------------------------------------------------------
/// The text is an ordinary component of a path: neither empty nor `.` nor `..`, without a
/// separator, and not beginning with a drive.
pub open spec fn is_name(style: PathStyle, part: Seq<char>) -> bool {
    &&& is_piece(style, part)
    &&& part != "."@
    &&& part != ".."@
    &&& !names_drive(style, part)
}

/// The text is not empty and holds no separator.
pub open spec fn is_piece(style: PathStyle, part: Seq<char>) -> bool {
    part.len() > 0 && is_unbroken(style, part)
}

/// The text holds no separator.
pub open spec fn is_unbroken(style: PathStyle, part: Seq<char>) -> bool {
    forall|i: int| 0 <= i < part.len() ==> !separators(style).contains(#[trigger] part[i])
}

/// No component of the path names a drive; in the Unix style none ever does.
pub open spec fn stays_on_drive(style: PathStyle, path: Seq<char>) -> bool {
    forall|i: int|
        0 <= i < components(style, path).len() ==> !names_drive(
            style,
            #[trigger] components(style, path)[i],
        )
}

proof fn lemma_open_piece(style: PathStyle, s: Seq<char>)
    ensures
        is_unbroken(style, text::open_piece(s, separators(style))),
    decreases s.len(),
{
    if s.len() > 0 && !separators(style).contains(s.last()) {
        lemma_open_piece(style, s.drop_last());
    }
}

proof fn lemma_closed_pieces(style: PathStyle, s: Seq<char>)
    ensures
        forall|i: int|
            0 <= i < text::closed_pieces(s, separators(style)).len() ==> is_piece(
                style,
                #[trigger] text::closed_pieces(s, separators(style))[i],
            ),
    decreases s.len(),
{
    if s.len() > 0 {
        lemma_closed_pieces(style, s.drop_last());
        lemma_open_piece(style, s.drop_last());
        let before = text::closed_pieces(s.drop_last(), separators(style));
        let after = text::closed_pieces(s, separators(style));
        assert forall|i: int| 0 <= i < after.len() implies is_piece(style, #[trigger] after[i]) by {
            if i < before.len() {
                assert(after[i] == before[i]);
            }
        }
    }
}

proof fn lemma_components(style: PathStyle, path: Seq<char>)
    ensures
        forall|i: int|
            0 <= i < components(style, path).len() ==> is_piece(
                style,
                #[trigger] components(style, path)[i],
            ),
{
    lemma_closed_pieces(style, path);
    lemma_open_piece(style, path);
}

proof fn lemma_walked_names(style: PathStyle, parts: Seq<Seq<char>>, n: nat)
    requires
        walked(style, parts, n) is Some,
        forall|i: int|
            0 <= i < parts.len() ==> is_piece(style, #[trigger] parts[i]) && !names_drive(
                style,
                parts[i],
            ),
    ensures
        walked(style, parts, n)->Some_0.drive.len() == 0,
        forall|i: int|
            0 <= i < walked(style, parts, n)->Some_0.parts.len() ==> is_name(
                style,
                #[trigger] walked(style, parts, n)->Some_0.parts[i],
            ),
    decreases n,
{
    if n > 0 && n <= parts.len() {
        lemma_walked_names(style, parts, (n - 1) as nat);
    }
}

proof fn lemma_append_piece(style: PathStyle, s: Seq<char>, part: Seq<char>)
    requires
        s.len() == 0 || separators(style).contains(s.last()),
        is_unbroken(style, part),
    ensures
        text::open_piece(s + part, separators(style)) == part,
        text::closed_pieces(s + part, separators(style)) == text::closed_pieces(
            s,
            separators(style),
        ),
    decreases part.len(),
{
    if part.len() == 0 {
        assert(s + part =~= s);
        assert(text::open_piece(s, separators(style)) =~= part);
    } else {
        let shorter = part.drop_last();
        lemma_append_piece(style, s, shorter);
        assert((s + part).drop_last() =~= s + shorter);
        assert((s + part).last() == part[part.len() - 1]);
        assert(shorter.push(part.last()) =~= part);
    }
}

proof fn lemma_components_of_joined(style: PathStyle, parts: Seq<Seq<char>>)
    requires
        forall|i: int| 0 <= i < parts.len() ==> is_piece(style, #[trigger] parts[i]),
    ensures
        components(style, text::joined(parts, "/"@)) == parts,
    decreases parts.len(),
{
    reveal_strlit("/");
    assert("/"@ =~= seq!['/']);
    let empty = Seq::<char>::empty();
    if parts.len() == 0 {
        assert(components(style, empty) =~= parts);
    } else if parts.len() == 1 {
        lemma_append_piece(style, empty, parts[0]);
        assert(empty + parts[0] =~= parts[0]);
        assert(components(style, parts[0]) =~= parts);
    } else {
        let before = parts.drop_last();
        lemma_components_of_joined(style, before);
        let s = text::joined(before, "/"@) + seq!['/'];
        assert(s.last() == '/');
        assert(s.drop_last() =~= text::joined(before, "/"@));
        assert(separators(style)[0] == '/');
        assert(separators(style).contains(s.last()));
        assert(text::closed_pieces(s, separators(style)) == before);
        lemma_append_piece(style, s, parts.last());
        assert(components(style, s + parts.last()) =~= parts);
    }
}

proof fn lemma_walk_names(style: PathStyle, parts: Seq<Seq<char>>, n: nat)
    requires
        n <= parts.len(),
        forall|i: int| 0 <= i < parts.len() ==> is_name(style, #[trigger] parts[i]),
    ensures
        walked(style, parts, n) == Some(
            Place { drive: Seq::empty(), parts: parts.take(n as int) },
        ),
    decreases n,
{
    if n > 0 {
        lemma_walk_names(style, parts, (n - 1) as nat);
        assert(parts.take(n - 1).push(parts[n - 1]) =~= parts.take(n as int));
    } else {
        assert(parts.take(0) =~= Seq::empty());
    }
}

proof fn lemma_joined_starts(style: PathStyle, parts: Seq<Seq<char>>)
    requires
        parts.len() > 0,
        is_piece(style, parts[0]),
        !names_drive(style, parts[0]),
    ensures
        text::joined(parts, "/"@).len() > 0,
        text::joined(parts, "/"@)[0] == parts[0][0],
        parts[0].len() >= 2 ==> text::joined(parts, "/"@).len() >= 2 && text::joined(
            parts,
            "/"@,
        )[1] == parts[0][1],
        parts[0].len() < 2 && text::joined(parts, "/"@).len() >= 2 ==> text::joined(
            parts,
            "/"@,
        )[1] == '/',
    decreases parts.len(),
{
    reveal_strlit("/");
    if parts.len() > 1 {
        lemma_joined_starts(style, parts.drop_last());
    }
}

/// An accepted shard reference leads to a path below the checkpoint directory: it begins
/// neither with a separator nor with a drive, and none of its components is empty, `.` or
/// `..`. A reference with a drive among its components is left out: the directory does not
/// confine it.
pub proof fn law_accepted_path_stays_inside(
    style: PathStyle,
    index_path: Seq<char>,
    relative: Seq<char>,
)
    requires
        normalized(style, index_path, relative) is Ok,
        stays_on_drive(style, relative),
    ensures
        ({
            let path = normalized(style, index_path, relative)->Ok_0;
            &&& path.len() > 0
            &&& !is_anchored(style, path)
            &&& components(style, path).len() > 0
            &&& path == text::joined(components(style, path), "/"@)
            &&& forall|i: int|
                0 <= i < components(style, path).len() ==> is_name(
                    style,
                    #[trigger] components(style, path)[i],
                )
        }),
{
    let parts = components(style, relative);
    let at = walked(style, parts, parts.len())->Some_0;
    lemma_components(style, relative);
    lemma_walked_names(style, parts, parts.len());
    assert(path_of(at) =~= text::joined(at.parts, "/"@));
    assert(is_name(style, at.parts[0]));
    lemma_components_of_joined(style, at.parts);
    lemma_joined_starts(style, at.parts);
    assert(!separators(style).contains(at.parts[0][0]));
}

/// Resolving a resolved path changes nothing. A reference with a drive among its
/// components is left out: it resolves to a path on that drive, which is refused.
pub proof fn law_resolving_is_idempotent(
    style: PathStyle,
    index_path: Seq<char>,
    relative: Seq<char>,
)
    requires
        normalized(style, index_path, relative) is Ok,
        stays_on_drive(style, relative),
    ensures
        normalized(style, index_path, normalized(style, index_path, relative)->Ok_0) == normalized(
            style,
            index_path,
            relative,
        ),
{
    let path = normalized(style, index_path, relative)->Ok_0;
    let parts = components(style, path);
    law_accepted_path_stays_inside(style, index_path, relative);
    lemma_walk_names(style, parts, parts.len());
    assert(parts.take(parts.len() as int) =~= parts);
    assert(path_of(Place { drive: Seq::empty(), parts }) =~= path);
}

/// What a path names shows in the last part of the file name: an index ends in
/// `.safetensors.index.json`, a shard in `.safetensors` with something before it. Other
/// files are refused. A directory may have any name.
pub proof fn law_file_names_tell_the_kind(path: Seq<char>, stem: Seq<char>, name: Seq<char>)
    ensures
        kind_of(path, name, true) == Ok::<CheckpointKind, ErrorView>(CheckpointKind::Directory),
        kind_of(path, stem + ".safetensors.index.json"@, false) == Ok::<CheckpointKind, ErrorView>(
            CheckpointKind::Index,
        ),
        stem.len() > 0 ==> kind_of(path, stem + ".safetensors"@, false) == Ok::<
            CheckpointKind,
            ErrorView,
        >(CheckpointKind::SingleFile),
        kind_of(path, ".safetensors"@, false) is Err,
        kind_of(path, name, false) is Ok ==> name.len() > 12 && (name.skip(name.len() - 12)
            == ".safetensors"@ || name.skip(name.len() - 23) == ".safetensors.index.json"@),
{
    let index = ".safetensors.index.json"@;
    let shard = ".safetensors"@;
    reveal_strlit(".safetensors.index.json");
    reveal_strlit(".safetensors");
    assert(index.len() == 23 && shard.len() == 12);
    let a = stem + index;
    assert(a.subrange(a.len() - 23, a.len() as int) =~= index);
    let b = stem + shard;
    assert(b.subrange(b.len() - 12, b.len() as int) =~= shard);
    assert(index[22] == 'n' && shard[11] == 's');
    if text::ends_with_text(b, index) {
        let end = b.subrange(b.len() - 23, b.len() as int);
        assert(end[22] == b[b.len() - 1]);
    }
    if names_index(name) {
        assert(name.skip(name.len() - 23) =~= index);
    }
    if names_shard(name) {
        assert(name.skip(name.len() - 12) =~= shard);
    }
}

/// One index file in a directory is chosen, none is no fault, and of several none is chosen.
pub proof fn law_a_single_index_is_chosen(root: Seq<char>, names: Seq<Seq<char>>, name: Seq<char>)
    ensures
        chosen_index(root, names) == Ok::<Option<Seq<char>>, ErrorView>(Some(name)) <==> names
            == seq![name],
        chosen_index(root, names) == Ok::<Option<Seq<char>>, ErrorView>(None) <==> names
            =~= Seq::empty(),
        chosen_index(root, names) is Err <==> names.len() >= 2,
{
    if names.len() == 1 && names[0] == name {
        assert(names =~= seq![name]);
    }
}

/// A shard is accepted only where a regular file inside the checkpoint directory was found.
/// A missing one is reported as such, with the reference and the index that makes it.
pub proof fn law_only_regular_files_are_accepted(
    index_path: Seq<char>,
    relative: Seq<char>,
    shard_path: Seq<char>,
    state: ShardState,
)
    ensures
        acceptance(index_path, relative, shard_path, state) is Ok <==> state is Regular,
        acceptance(index_path, relative, shard_path, state) == Err::<(), ErrorView>(
            ErrorView::MissingShard { shard: relative, path: index_path },
        ) <==> state is Missing,
{
}

proof fn lemma_walk_on(
    style: PathStyle,
    parts: Seq<Seq<char>>,
    from: nat,
    n: nat,
    base: Seq<Seq<char>>,
)
    requires
        from <= n <= parts.len(),
        walked(style, parts, from) == Some(Place { drive: Seq::empty(), parts: base }),
        forall|k: int| from <= k < n ==> is_name(style, #[trigger] parts[k]),
    ensures
        walked(style, parts, n) == Some(
            Place { drive: Seq::empty(), parts: base + parts.subrange(from as int, n as int) },
        ),
    decreases n - from,
{
    if from < n {
        lemma_walk_on(style, parts, from, (n - 1) as nat, base);
        assert((base + parts.subrange(from as int, n - 1)).push(parts[n - 1]) =~= base
            + parts.subrange(from as int, n as int));
    } else {
        assert(base + parts.subrange(from as int, n as int) =~= base);
    }
}

proof fn lemma_reads_as(
    style: PathStyle,
    index_path: Seq<char>,
    parts: Seq<Seq<char>>,
    names: Seq<Seq<char>>,
)
    requires
        names.len() > 0,
        parts.len() > 0,
        forall|i: int|
            0 <= i < parts.len() ==> is_piece(style, #[trigger] parts[i]) && !names_drive(
                style,
                parts[i],
            ),
        walked(style, parts, parts.len()) == Some(Place { drive: Seq::empty(), parts: names }),
    ensures
        normalized(style, index_path, text::joined(parts, "/"@)) == Ok::<Seq<char>, ErrorView>(
            text::joined(names, "/"@),
        ),
{
    assert(is_piece(style, parts[0]));
    lemma_components_of_joined(style, parts);
    lemma_joined_starts(style, parts);
    assert(!separators(style).contains(parts[0][0]));
    assert(path_of(Place { drive: Seq::empty(), parts: names }) =~= text::joined(names, "/"@));
}

proof fn lemma_dots(style: PathStyle)
    ensures
        is_piece(style, "."@) && !names_drive(style, "."@),
        is_piece(style, ".."@) && !names_drive(style, ".."@),
        "."@ != ".."@,
{
    reveal_strlit(".");
    reveal_strlit("..");
    let all = separators(style);
    assert(!all.contains('.')) by {
        if all.contains('.') {
            let i = all.index_of('.');
            assert(all[i] == '.');
        }
    }
    assert("."@.len() == 1 && ".."@.len() == 2);
    assert(".."@[1] == '.');
}

/// A reference made of plain names is the path itself. A `.` anywhere in it changes nothing,
/// and neither does a name that a `..` follows. A `..` at the start is refused.
pub proof fn law_dots_are_resolved(
    style: PathStyle,
    index_path: Seq<char>,
    names: Seq<Seq<char>>,
    i: int,
    name: Seq<char>,
)
    requires
        names.len() > 0,
        0 <= i <= names.len(),
        is_name(style, name),
        forall|k: int| 0 <= k < names.len() ==> is_name(style, #[trigger] names[k]),
    ensures
        normalized(style, index_path, text::joined(names, "/"@)) == Ok::<Seq<char>, ErrorView>(
            text::joined(names, "/"@),
        ),
        normalized(style, index_path, text::joined(names.insert(i, "."@), "/"@)) == Ok::<
            Seq<char>,
            ErrorView,
        >(text::joined(names, "/"@)),
        normalized(
            style,
            index_path,
            text::joined(names.insert(i, ".."@).insert(i, name), "/"@),
        ) == Ok::<Seq<char>, ErrorView>(text::joined(names, "/"@)),
        normalized(style, index_path, text::joined(names.insert(0, ".."@), "/"@)) is Err,
{
    let n = names.len();
    lemma_walk_names(style, names, n);
    assert(names.take(n as int) =~= names);
    lemma_reads_as(style, index_path, names, names);
    lemma_dot_leads_nowhere(style, index_path, names, i);
    lemma_two_dots_lead_back(style, index_path, names, i, name);
    lemma_two_dots_lead_out(style, index_path, names);
}

proof fn lemma_dot_leads_nowhere(
    style: PathStyle,
    index_path: Seq<char>,
    names: Seq<Seq<char>>,
    i: int,
)
    requires
        names.len() > 0,
        0 <= i <= names.len(),
        forall|k: int| 0 <= k < names.len() ==> is_name(style, #[trigger] names[k]),
    ensures
        normalized(style, index_path, text::joined(names.insert(i, "."@), "/"@)) == Ok::<
            Seq<char>,
            ErrorView,
        >(text::joined(names, "/"@)),
{
    lemma_dots(style);
    let n = names.len();
    let one = names.insert(i, "."@);
    assert(one.take(i) =~= names.take(i));
    lemma_walk_prefix(style, names, one, i as nat);
    assert(one[i] == "."@);
    assert(walked(style, one, (i + 1) as nat) == Some(
        Place { drive: Seq::empty(), parts: names.take(i) },
    ));
    assert forall|k: int| i + 1 <= k < n + 1 implies is_name(style, #[trigger] one[k]) by {
        assert(one[k] == names[k - 1]);
    }
    lemma_walk_on(style, one, (i + 1) as nat, n + 1, names.take(i));
    assert(names.take(i) + one.subrange(i + 1, n as int + 1) =~= names);
    assert forall|k: int| 0 <= k < one.len() implies is_piece(style, #[trigger] one[k])
        && !names_drive(style, one[k]) by {
        if k < i {
            assert(one[k] == names[k]);
        } else if k > i {
            assert(one[k] == names[k - 1]);
        }
    }
    lemma_reads_as(style, index_path, one, names);
}

proof fn lemma_two_dots_lead_back(
    style: PathStyle,
    index_path: Seq<char>,
    names: Seq<Seq<char>>,
    i: int,
    name: Seq<char>,
)
    requires
        names.len() > 0,
        0 <= i <= names.len(),
        forall|k: int| 0 <= k < names.len() ==> is_name(style, #[trigger] names[k]),
        is_name(style, name),
    ensures
        normalized(
            style,
            index_path,
            text::joined(names.insert(i, ".."@).insert(i, name), "/"@),
        ) == Ok::<Seq<char>, ErrorView>(text::joined(names, "/"@)),
{
    lemma_dots(style);
    let n = names.len();
    let two = names.insert(i, ".."@).insert(i, name);
    assert(two.take(i) =~= names.take(i));
    lemma_walk_prefix(style, names, two, i as nat);
    assert(two[i] == name && two[i + 1] == ".."@);
    assert(walked(style, two, (i + 1) as nat) == Some(
        Place { drive: Seq::empty(), parts: names.take(i).push(name) },
    ));
    assert(names.take(i).push(name).drop_last() =~= names.take(i));
    assert(walked(style, two, (i + 2) as nat) == Some(
        Place { drive: Seq::empty(), parts: names.take(i) },
    ));
    assert forall|k: int| i + 2 <= k < n + 2 implies is_name(style, #[trigger] two[k]) by {
        assert(two[k] == names[k - 2]);
    }
    lemma_walk_on(style, two, (i + 2) as nat, n + 2, names.take(i));
    assert(names.take(i) + two.subrange(i + 2, n as int + 2) =~= names);
    assert forall|k: int| 0 <= k < two.len() implies is_piece(style, #[trigger] two[k])
        && !names_drive(style, two[k]) by {
        if k < i {
            assert(two[k] == names[k]);
        } else if k > i + 1 {
            assert(two[k] == names[k - 2]);
        }
    }
    lemma_reads_as(style, index_path, two, names);
}

proof fn lemma_two_dots_lead_out(
    style: PathStyle,
    index_path: Seq<char>,
    names: Seq<Seq<char>>,
)
    requires
        forall|k: int| 0 <= k < names.len() ==> is_name(style, #[trigger] names[k]),
    ensures
        normalized(style, index_path, text::joined(names.insert(0, ".."@), "/"@)) is Err,
{
    lemma_dots(style);
    let up = names.insert(0, ".."@);
    assert(up[0] == ".."@);
    assert(walked(style, up, 0) == Some(Place { drive: Seq::empty(), parts: Seq::empty() }));
    assert(walked(style, up, 1) is None);
    lemma_walk_stops(style, up, 1);
    assert forall|k: int| 0 <= k < up.len() implies is_piece(style, #[trigger] up[k]) by {
        if k > 0 {
            assert(up[k] == names[k - 1]);
        }
    }
    lemma_components_of_joined(style, up);
}

proof fn lemma_walk_prefix(
    style: PathStyle,
    names: Seq<Seq<char>>,
    parts: Seq<Seq<char>>,
    i: nat,
)
    requires
        i <= names.len(),
        i <= parts.len(),
        forall|k: int| 0 <= k < names.len() ==> is_name(style, #[trigger] names[k]),
        parts.take(i as int) == names.take(i as int),
    ensures
        walked(style, parts, i) == Some(
            Place { drive: Seq::empty(), parts: names.take(i as int) },
        ),
    decreases i,
{
    if i > 0 {
        assert(parts.take(i - 1) =~= parts.take(i as int).take(i - 1));
        assert(names.take(i - 1) =~= names.take(i as int).take(i - 1));
        lemma_walk_prefix(style, names, parts, (i - 1) as nat);
        assert(parts.take(i as int)[i - 1] == names.take(i as int)[i - 1]);
        assert(names.take(i - 1).push(names[i - 1]) =~= names.take(i as int));
    } else {
        assert(names.take(0) =~= Seq::empty());
    }
}

/// The files that a manifest must not overwrite: the index, the shard of every tensor, and
/// the shards that the metadata lists under `index:unreferenced_shards`.
pub proof fn law_manifests_name_their_files(m: ManifestView, file: Seq<char>)
    ensures
        named_files(m).contains(file) <==> {
            ||| m.checkpoint.index_file == Some(file)
            ||| exists|i: int|
                0 <= i < m.tensors.len() && (#[trigger] m.tensors[i]).source_shard == file
            ||| m.checkpoint.metadata.contains_key("index:unreferenced_shards"@)
                && metadata::unreferenced(
                m.checkpoint.metadata["index:unreferenced_shards"@],
            ).contains(file)
        },
{
    let first: Seq<Seq<char>> = match m.checkpoint.index_file {
        Some(name) => seq![name],
        None => Seq::empty(),
    };
    let middle = tensor_shards(m.tensors);
    let listed: Seq<Seq<char>> = if m.checkpoint.metadata.contains_key(
        INDEX_UNREFERENCED_SHARDS_KEY@,
    ) {
        metadata::unreferenced(m.checkpoint.metadata[INDEX_UNREFERENCED_SHARDS_KEY@])
    } else {
        Seq::empty()
    };
    let all = named_files(m);
    assert(all == first + middle + listed);
    if all.contains(file) {
        let i = all.index_of(file);
        if i < first.len() {
            assert(first[i] == file);
        } else if i < first.len() + middle.len() {
            assert(m.tensors[i - first.len()].source_shard == file);
        } else {
            assert(listed[i - first.len() - middle.len()] == file);
        }
    }
    if m.checkpoint.index_file == Some(file) {
        assert(all[0] == file);
    }
    if exists|i: int| 0 <= i < m.tensors.len() && (#[trigger] m.tensors[i]).source_shard == file {
        let i = choose|i: int|
            0 <= i < m.tensors.len() && (#[trigger] m.tensors[i]).source_shard == file;
        assert(all[first.len() + i] == middle[i]);
    }
    if listed.contains(file) {
        let i = listed.index_of(file);
        assert(all[first.len() + middle.len() + i] == file);
    }
}

} // verus!
