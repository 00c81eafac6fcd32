//! A mesh together with the material libraries that it names.
//!
//! Whoever loads the mesh reads the libraries that [`library_names`] lists and hands over what
//! became of each.

use crate::material::{
    has_name, lemma_next_position, mtl_models, names_are_distinct, optional_picture, Complaint,
    Material, MaterialLibrary, MtlError, MtlModel,
};
use crate::mesh::{GroupModel, Mesh, MeshModel};
use crate::obj::{mesh_in, mesh_is_whole, ObjError};
use crate::records::{
    find_next, is_text, line_content, next_position, read_line, split_words, word_contents, words,
};
use crate::text::{characters, join2, join3, same_text, text_of, texts};
use crate::texture::Texture;
use vstd::prelude::*;
use vstd::string::*;

verus! {

/// What became of a material library.
#[derive(Debug, PartialEq)]
pub enum LibraryOutcome {
    /// Its path was refused.
    Refused(String),
    /// It could not be read or parsed.
    Failed(MtlError),
    Loaded(MaterialLibrary),
}

/// A material library that a mesh names.
#[derive(Debug, PartialEq)]
pub struct LibraryFile {
    /// The name in the mesh.
    pub name: String,
    pub outcome: LibraryOutcome,
}

/// What became of a library, as mathematics.
#[verifier::ext_equal]
pub enum OutcomeModel {
    Refused(Seq<char>),
    Failed(Complaint),
    Loaded(Seq<MtlModel>),
}

/// A library and what became of it, as mathematics.
#[verifier::ext_equal]
pub struct LibraryModel {
    pub name: Seq<char>,
    pub outcome: OutcomeModel,
}

impl View for LibraryFile {
    type V = LibraryModel;

    open spec fn view(&self) -> LibraryModel {
        LibraryModel {
            name: self.name@,
            outcome: match self.outcome {
                LibraryOutcome::Refused(message) => OutcomeModel::Refused(message@),
                LibraryOutcome::Failed(error) => OutcomeModel::Failed(error.complaint()),
                LibraryOutcome::Loaded(library) => OutcomeModel::Loaded(library@),
            },
        }
    }
}

/// The views of a list of libraries.
pub open spec fn library_models(files: Seq<LibraryFile>) -> Seq<LibraryModel> {
    Seq::new(files.len(), |i: int| files[i]@)
}

/// The first library from `index` on that has this name, or how many there are.
pub open spec fn library_with(files: Seq<LibraryModel>, name: Seq<char>, index: int) -> int
    decreases files.len() - index,
{
    if 0 <= index < files.len() && files[index].name != name {
        library_with(files, name, index + 1)
    } else {
        index
    }
}

/// The libraries that a line names, if it names any.
pub open spec fn names_in_line(content: Seq<char>) -> Option<Seq<Seq<char>>> {
    let list = words(content);
    if list.len() > 0 && list[0] == "mtllib"@ {
        Some(list.skip(1))
    } else {
        None
    }
}

/// The libraries that the lines from `start` on name, after `found`.
pub open spec fn names_from(text: Seq<char>, start: int, found: Seq<Seq<char>>) -> Seq<Seq<char>>
    decreases text.len() + 1 - start,
{
    if !(0 <= start < text.len()) {
        found
    } else {
        let end = next_position(text, '\n', start);
        proof {
            lemma_next_position(text, '\n', start);
        }
        match names_in_line(line_content(text.subrange(start, end))) {
            None => names_from(text, end + 1, found),
            Some(names) => names_from(text, end + 1, found + names),
        }
    }
}

/// The materials of two libraries, if no name is in both.
pub open spec fn merged(
    found: Seq<MtlModel>,
    library: Seq<MtlModel>,
    index: int,
    line: int,
) -> Result<Seq<MtlModel>, Complaint>
    decreases library.len() - index,
{
    if !(0 <= index < library.len()) {
        Ok(found)
    } else if has_name(found, library[index].name) {
        Err((line, "duplicate material name "@ + library[index].name))
    } else {
        merged(found.push(library[index]), library, index + 1, line)
    }
}

/// The materials once a library is taken in.
pub open spec fn taken(
    found: Seq<MtlModel>,
    name: Seq<char>,
    files: Seq<LibraryModel>,
    line: int,
) -> Result<Seq<MtlModel>, Complaint> {
    let at = library_with(files, name, 0);
    if at >= files.len() {
        Err((line, "mtllib "@ + name + " was not read"@))
    } else {
        match files[at].outcome {
            OutcomeModel::Refused(message) => Err((line, message)),
            OutcomeModel::Failed((own, message)) => Err(
                (
                    if own == 0 {
                        line
                    } else {
                        own
                    },
                    message,
                ),
            ),
            OutcomeModel::Loaded(library) => merged(found, library, 0, line),
        }
    }
}

/// The materials once the libraries from `index` on are taken in.
pub open spec fn all_taken(
    found: Seq<MtlModel>,
    names: Seq<Seq<char>>,
    index: int,
    files: Seq<LibraryModel>,
    line: int,
) -> Result<Seq<MtlModel>, Complaint>
    decreases names.len() - index,
{
    if !(0 <= index < names.len()) {
        Ok(found)
    } else {
        match taken(found, names[index], files, line) {
            Err(complaint) => Err(complaint),
            Ok(next) => all_taken(next, names, index + 1, files, line),
        }
    }
}

/// The materials of the libraries that the lines from `start` on name, and whether any does.
pub open spec fn materials_from(
    text: Seq<char>,
    start: int,
    line: int,
    files: Seq<LibraryModel>,
    found: Seq<MtlModel>,
    any: bool,
) -> Result<(Seq<MtlModel>, bool), Complaint>
    decreases text.len() + 1 - start,
{
    if !(0 <= start < text.len()) {
        Ok((found, any))
    } else {
        let end = next_position(text, '\n', start);
        proof {
            lemma_next_position(text, '\n', start);
        }
        match names_in_line(line_content(text.subrange(start, end))) {
            None => materials_from(text, end + 1, line + 1, files, found, any),
            Some(names) => if names.len() == 0 {
                Err((line, "mtllib needs a file name"@))
            } else {
                match all_taken(found, names, 0, files, line) {
                    Err(complaint) => Err(complaint),
                    Ok(next) => materials_from(text, end + 1, line + 1, files, next, true),
                }
            },
        }
    }
}

/// The first group from `index` on whose material is not known.
pub open spec fn unknown_from(
    groups: Seq<GroupModel>,
    materials: Seq<MtlModel>,
    index: int,
) -> Option<Seq<char>>
    decreases groups.len() - index,
{
    if !(0 <= index < groups.len()) {
        None
    } else if !has_name(materials, groups[index].name) {
        Some(groups[index].name)
    } else {
        unknown_from(groups, materials, index + 1)
    }
}

/// The mesh and the materials that a text describes.
pub open spec fn asset_in(text: Seq<char>, files: Seq<LibraryModel>) -> Result<
    (MeshModel, Seq<MtlModel>),
    Complaint,
> {
    match mesh_in(text) {
        Err(complaint) => Err(complaint),
        Ok(mesh) => match materials_from(text, 0, 1, files, Seq::empty(), false) {
            Err(complaint) => Err(complaint),
            Ok((materials, any)) => if !any && mesh.groups.len() > 0 {
                Err((0, "OBJ uses materials but has no mtllib"@))
            } else {
                match unknown_from(mesh.groups, materials, 0) {
                    Some(name) => Err((0, "usemtl references unknown material "@ + name)),
                    None => Ok((mesh, materials)),
                }
            },
        },
    }
}

fn read_names(content: &[char]) -> (result: Option<Vec<String>>)
    ensures
        match result {
            Some(names) => names_in_line(content@) == Some(texts(names@)),
            None => names_in_line(content@) is None,
        },
{
    let list: Vec<Vec<char>> = split_words(content);
    let ghost all = words(content@);
    assert(all.len() == list@.len());
    if list.len() == 0 {
        return None;
    }
    assert(all[0] == list@[0]@);
    if !is_text(list[0].as_slice(), "mtllib") {
        return None;
    }
    let mut names: Vec<String> = Vec::new();
    let mut i: usize = 1;
    while i < list.len()
        invariant
            1 <= i <= list@.len(),
            all == word_contents(list@),
            texts(names@) =~= all.subrange(1, i as int),
        decreases list@.len() - i,
    {
        let ghost before = texts(names@);
        let name: String = text_of(list[i].as_slice(), 0, list[i].len());
        assert(name@ =~= all[i as int]);
        names.push(name);
        assert(texts(names@) =~= before.push(all[i as int]));
        i += 1;
    }
    assert(all.skip(1) =~= all.subrange(1, all.len() as int));
    Some(names)
}

/// The names of the libraries that a mesh names, in order.
pub fn library_names(source: &str) -> (result: Vec<String>)
    ensures
        texts(result@) == names_from(source@, 0, Seq::empty()),
{
    let text: Vec<char> = characters(source);
    let mut found: Vec<String> = Vec::new();
    let mut start: usize = 0;
    assert(text.len() == text@.len());
    assert(texts(found@) =~= Seq::empty());
    while start < text.len()
        invariant
            text@ == source@,
            text@.len() <= usize::MAX,
            start <= text@.len(),
            names_from(text@, 0, Seq::empty()) == names_from(
                text@,
                start as int,
                texts(found@),
            ),
        decreases text@.len() - start,
    {
        let end: usize = find_next(text.as_slice(), '\n', start);
        let content: Vec<char> = read_line(text.as_slice(), start, end);
        match read_names(content.as_slice()) {
            None => {},
            Some(mut names) => {
                let ghost before = texts(found@);
                let ghost added = texts(names@);
                found.append(&mut names);
                assert(texts(found@) =~= before + added);
            },
        }
        if text.len() - end <= 1 {
            assert(names_from(text@, end + 1, texts(found@)) == texts(found@));
            start = text.len();
        } else {
            start = end + 1;
        }
    }
    found
}

fn copy_optional(text: &Option<String>) -> (result: Option<String>)
    ensures
        crate::material::optional_characters(result) == crate::material::optional_characters(*text),
{
    match text {
        Some(found) => Some(found.clone()),
        None => None,
    }
}

fn copy_picture(texture: &Option<Texture>) -> (result: Option<Texture>)
    ensures
        optional_picture(result) == optional_picture(*texture),
{
    match texture {
        Some(found) => Some(found.copy()),
        None => None,
    }
}

fn copy_material(material: &Material) -> (result: Material)
    ensures
        result@ == material@,
{
    Material {
        name: material.name.clone(),
        ambient: material.ambient,
        diffuse: material.diffuse,
        specular: material.specular,
        shininess: material.shininess,
        alpha: material.alpha,
        map_kd: copy_optional(&material.map_kd),
        map_bump: copy_optional(&material.map_bump),
        map_kd_line: material.map_kd_line,
        map_bump_line: material.map_bump_line,
        albedo_texture: copy_picture(&material.albedo_texture),
        normal_map_texture: copy_picture(&material.normal_map_texture),
    }
}

fn find_library(files: &[LibraryFile], name: &str) -> (result: usize)
    ensures
        result == library_with(library_models(files@), name@, 0),
        result <= files@.len(),
{
    let ghost all = library_models(files@);
    let mut i: usize = 0;
    while i < files.len()
        invariant
            i <= files@.len(),
            all == library_models(files@),
            library_with(all, name@, 0) == library_with(all, name@, i as int),
        decreases files@.len() - i,
    {
        assert(all[i as int] == files@[i as int]@);
        if same_text(files[i].name.as_str(), name) {
            return i;
        }
        i += 1;
    }
    i
}

fn knows(materials: &Vec<Material>, name: &str) -> (result: bool)
    ensures
        result == has_name(mtl_models(materials@), name@),
{
    let ghost all = mtl_models(materials@);
    let mut i: usize = 0;
    while i < materials.len()
        invariant
            i <= materials@.len(),
            all == mtl_models(materials@),
            forall|j: int| 0 <= j < i ==> (#[trigger] all[j]).name != name@,
        decreases materials@.len() - i,
    {
        assert(all[i as int] == materials@[i as int]@);
        if same_text(materials[i].name.as_str(), name) {
            return true;
        }
        i += 1;
    }
    false
}

fn merge(found: &mut Vec<Material>, library: &[Material], line: usize) -> (result: Result<
    (),
    ObjError,
>)
    ensures
        match result {
            Ok(_) => merged(mtl_models(old(found)@), mtl_models(library@), 0, line as int) == Ok::<
                Seq<MtlModel>,
                Complaint,
            >(mtl_models(final(found)@)),
            Err(error) => merged(mtl_models(old(found)@), mtl_models(library@), 0, line as int)
                == Err::<Seq<MtlModel>, Complaint>(error.complaint()),
        },
{
    let ghost all = mtl_models(library@);
    let mut i: usize = 0;
    while i < library.len()
        invariant
            i <= library@.len(),
            all == mtl_models(library@),
            merged(mtl_models(old(found)@), all, 0, line as int) == merged(
                mtl_models(found@),
                all,
                i as int,
                line as int,
            ),
        decreases library@.len() - i,
    {
        assert(all[i as int] == library@[i as int]@);
        if knows(found, library[i].name.as_str()) {
            let message: String = join2("duplicate material name ", library[i].name.as_str());
            return Err(ObjError { line, message });
        }
        let ghost before = mtl_models(found@);
        found.push(copy_material(&library[i]));
        assert(mtl_models(found@) =~= before.push(all[i as int]));
        i += 1;
    }
    Ok(())
}

fn copy_text(text: &str) -> (result: String)
    ensures
        result@ == text@,
{
    text.to_owned()
}

fn take_library(found: &mut Vec<Material>, name: &str, files: &[LibraryFile], line: usize) -> (result:
    Result<(), ObjError>)
    ensures
        match result {
            Ok(_) => taken(mtl_models(old(found)@), name@, library_models(files@), line as int)
                == Ok::<Seq<MtlModel>, Complaint>(mtl_models(final(found)@)),
            Err(error) => taken(mtl_models(old(found)@), name@, library_models(files@), line as int)
                == Err::<Seq<MtlModel>, Complaint>(error.complaint()),
        },
{
    let at: usize = find_library(files, name);
    if at >= files.len() {
        return Err(ObjError { line, message: join3("mtllib ", name, " was not read") });
    }
    assert(library_models(files@)[at as int] == files@[at as int]@);
    match &files[at].outcome {
        LibraryOutcome::Refused(message) => Err(
            ObjError { line, message: copy_text(message.as_str()) },
        ),
        LibraryOutcome::Failed(error) => Err(
            ObjError::from_mtl(
                line,
                MtlError { line: error.line, message: copy_text(error.message.as_str()) },
            ),
        ),
        LibraryOutcome::Loaded(library) => merge(found, library.materials(), line),
    }
}

fn take_libraries(
    found: &mut Vec<Material>,
    names: &Vec<String>,
    files: &[LibraryFile],
    line: usize,
) -> (result: Result<(), ObjError>)
    ensures
        match result {
            Ok(_) => all_taken(
                mtl_models(old(found)@),
                texts(names@),
                0,
                library_models(files@),
                line as int,
            ) == Ok::<Seq<MtlModel>, Complaint>(mtl_models(final(found)@)),
            Err(error) => all_taken(
                mtl_models(old(found)@),
                texts(names@),
                0,
                library_models(files@),
                line as int,
            ) == Err::<Seq<MtlModel>, Complaint>(error.complaint()),
        },
{
    let ghost all = texts(names@);
    let ghost models = library_models(files@);
    let mut i: usize = 0;
    while i < names.len()
        invariant
            i <= names@.len(),
            all == texts(names@),
            models == library_models(files@),
            all_taken(mtl_models(old(found)@), all, 0, models, line as int) == all_taken(
                mtl_models(found@),
                all,
                i as int,
                models,
                line as int,
            ),
        decreases names@.len() - i,
    {
        assert(all[i as int] == names@[i as int]@);
        match take_library(found, names[i].as_str(), files, line) {
            Err(error) => {
                return Err(error);
            },
            Ok(_) => {},
        }
        i += 1;
    }
    Ok(())
}

fn take_all_libraries(source: &str, files: &[LibraryFile]) -> (result: Result<
    (Vec<Material>, bool),
    ObjError,
>)
    ensures
        match result {
            Ok((materials, any)) => materials_from(
                source@,
                0,
                1,
                library_models(files@),
                Seq::empty(),
                false,
            ) == Ok::<(Seq<MtlModel>, bool), Complaint>((mtl_models(materials@), any)),
            Err(error) => materials_from(source@, 0, 1, library_models(files@), Seq::empty(), false)
                == Err::<(Seq<MtlModel>, bool), Complaint>(error.complaint()),
        },
{
    let text: Vec<char> = characters(source);
    let ghost models = library_models(files@);
    let mut found: Vec<Material> = Vec::new();
    let mut any: bool = false;
    let mut start: usize = 0;
    let mut line: usize = 1;
    assert(mtl_models(found@) =~= Seq::empty());
    while start < text.len()
        invariant
            text@ == source@,
            text@.len() <= usize::MAX,
            start <= text@.len(),
            1 <= line,
            start < text@.len() ==> line <= start + 1,
            models == library_models(files@),
            materials_from(text@, 0, 1, models, Seq::empty(), false) == materials_from(
                text@,
                start as int,
                line as int,
                models,
                mtl_models(found@),
                any,
            ),
        decreases text@.len() - start,
    {
        let end: usize = find_next(text.as_slice(), '\n', start);
        let content: Vec<char> = read_line(text.as_slice(), start, end);
        match read_names(content.as_slice()) {
            None => {},
            Some(names) => {
                if names.len() == 0 {
                    return Err(ObjError::new(line, "mtllib needs a file name"));
                }
                match take_libraries(&mut found, &names, files, line) {
                    Err(error) => {
                        return Err(error);
                    },
                    Ok(_) => {},
                }
                any = true;
            },
        }
        if text.len() - end <= 1 {
            assert(materials_from(text@, end + 1, line + 1, models, mtl_models(found@), any)
                == Ok::<(Seq<MtlModel>, bool), Complaint>((mtl_models(found@), any)));
            start = text.len();
        } else {
            start = end + 1;
            line += 1;
        }
    }
    Ok((found, any))
}

/// A mesh and its materials.
#[derive(Debug, PartialEq)]
pub struct ObjAsset {
    pub mesh: Mesh,
    pub materials: MaterialLibrary,
}

impl View for ObjAsset {
    type V = (MeshModel, Seq<MtlModel>);

    open spec fn view(&self) -> (MeshModel, Seq<MtlModel>) {
        (self.mesh@, self.materials@)
    }
}

impl Mesh {
    /// Parses a mesh and takes in the libraries that it names.
    pub fn load_with_materials(source: &str, files: &[LibraryFile]) -> (result: Result<
        ObjAsset,
        ObjError,
    >)
        ensures
            match result {
                Ok(asset) => asset_in(source@, library_models(files@)) == Ok::<
                    (MeshModel, Seq<MtlModel>),
                    Complaint,
                >(asset@) && mesh_is_whole(asset@.0),
                Err(error) => asset_in(source@, library_models(files@)) == Err::<
                    (MeshModel, Seq<MtlModel>),
                    Complaint,
                >(error.complaint()),
            },
    {
        let mesh: Mesh = Mesh::parse(source)?;
        let (found, any): (Vec<Material>, bool) = take_all_libraries(source, files)?;
        assert(mesh.material_groups@.len() == mesh@.groups.len());
        if !any && mesh.material_groups.len() > 0 {
            return Err(ObjError::new(0, "OBJ uses materials but has no mtllib"));
        }
        let ghost groups = mesh@.groups;
        let ghost models = mtl_models(found@);
        let mut i: usize = 0;
        while i < mesh.material_groups.len()
            invariant
                i <= mesh.material_groups@.len(),
                groups == mesh@.groups,
                models == mtl_models(found@),
                mesh_in(source@) == Ok::<MeshModel, Complaint>(mesh@),
                materials_from(source@, 0, 1, library_models(files@), Seq::empty(), false) == Ok::<
                    (Seq<MtlModel>, bool),
                    Complaint,
                >((models, any)),
                any || groups.len() == 0,
                unknown_from(groups, models, 0) == unknown_from(groups, models, i as int),
            decreases mesh.material_groups@.len() - i,
        {
            assert(groups[i as int] == mesh.material_groups@[i as int]@);
            if !knows(&found, mesh.material_groups[i].material_name.as_str()) {
                let message: String = join2(
                    "usemtl references unknown material ",
                    mesh.material_groups[i].material_name.as_str(),
                );
                return Err(ObjError { line: 0, message });
            }
            i += 1;
        }
        Ok(ObjAsset { mesh, materials: MaterialLibrary { materials: found } })
    }
}

proof fn lemma_merging_keeps_names_distinct(
    found: Seq<MtlModel>,
    library: Seq<MtlModel>,
    index: int,
    line: int,
)
    requires
        names_are_distinct(found),
    ensures
        merged(found, library, index, line) matches Ok(last) ==> names_are_distinct(last),
    decreases library.len() - index,
{
    if 0 <= index < library.len() && !has_name(found, library[index].name) {
        let next = found.push(library[index]);
        assert forall|i: int, j: int| 0 <= i < j < next.len() implies (#[trigger] next[i]).name != (
        #[trigger] next[j]).name by {
            assert(next[i] == found[i]);
            if j < found.len() {
                assert(next[j] == found[j]);
            }
        }
        lemma_merging_keeps_names_distinct(next, library, index + 1, line);
    }
}

proof fn lemma_taking_keeps_names_distinct(
    found: Seq<MtlModel>,
    names: Seq<Seq<char>>,
    index: int,
    files: Seq<LibraryModel>,
    line: int,
)
    requires
        names_are_distinct(found),
    ensures
        all_taken(found, names, index, files, line) matches Ok(last) ==> names_are_distinct(last),
    decreases names.len() - index,
{
    if 0 <= index < names.len() {
        if let Ok(next) = taken(found, names[index], files, line) {
            let at = library_with(files, names[index], 0);
            if let OutcomeModel::Loaded(library) = files[at].outcome {
                lemma_merging_keeps_names_distinct(found, library, 0, line);
            }
            lemma_taking_keeps_names_distinct(next, names, index + 1, files, line);
        }
    }
}

proof fn lemma_lines_keep_names_distinct(
    text: Seq<char>,
    start: int,
    line: int,
    files: Seq<LibraryModel>,
    found: Seq<MtlModel>,
    any: bool,
)
    requires
        0 <= start,
        names_are_distinct(found),
    ensures
        materials_from(text, start, line, files, found, any) matches Ok((last, _))
            ==> names_are_distinct(last),
    decreases text.len() + 1 - start,
{
    if start < text.len() {
        let end = next_position(text, '\n', start);
        lemma_next_position(text, '\n', start);
        match names_in_line(line_content(text.subrange(start, end))) {
            None => {
                lemma_lines_keep_names_distinct(text, end + 1, line + 1, files, found, any);
            },
            Some(names) => {
                lemma_taking_keeps_names_distinct(found, names, 0, files, line);
                if let Ok(next) = all_taken(found, names, 0, files, line) {
                    lemma_lines_keep_names_distinct(text, end + 1, line + 1, files, next, true);
                }
            },
        }
    }
}

proof fn lemma_all_known(groups: Seq<GroupModel>, materials: Seq<MtlModel>, index: int)
    requires
        0 <= index,
        unknown_from(groups, materials, index) is None,
    ensures
        forall|i: int|
            index <= i < groups.len() ==> has_name(materials, (#[trigger] groups[i]).name),
    decreases groups.len() - index,
{
    if index < groups.len() {
        lemma_all_known(groups, materials, index + 1);
    }
}

/// In a loaded asset every group has a material, and no two materials share a name.
pub proof fn law_loaded_groups_have_their_materials(text: Seq<char>, files: Seq<LibraryModel>)
    ensures
        asset_in(text, files) matches Ok((mesh, materials)) ==> names_are_distinct(materials) && (
        forall|i: int|
            0 <= i < mesh.groups.len() ==> has_name(materials, (#[trigger] mesh.groups[i]).name)),
{
    lemma_lines_keep_names_distinct(text, 0, 1, files, Seq::empty(), false);
    if let Ok((mesh, materials)) = asset_in(text, files) {
        lemma_all_known(mesh.groups, materials, 0);
    }
}

} // verus!
