//! Buffers and images: data URIs and the files that a document names.

use crate::gltf::base64::{decode_base64, decoded};
use crate::gltf::collect::{collected, lemma_collected_all, lemma_collected_next};
use crate::gltf::error::{yields, GltfError, Outcome};
use crate::gltf::fields::{
    array_or_empty, as_object, get_array_or_empty, get_optional_string, get_optional_usize,
    get_usize, object_of, optional_text, optional_usize, required_usize, Members,
};
use crate::gltf::buffers::contents;
use crate::json::{member_models, models, Model, Value};
use crate::text::{characters, decimal_digits, join3, same_text, text_of, texts};
use vstd::prelude::*;
use vstd::string::*;
use vstd::utf8::encode_utf8;

verus! {

/// What became of a file that a document names.
#[derive(Debug, PartialEq, Eq)]
pub struct FileContent {
    /// The name in the document.
    pub uri: String,
    /// The path of the file, as messages show it.
    pub path: String,
    /// The extension of the file that was found, or why none was.
    pub located: Result<String, String>,
    /// What the file holds, or why it could not be read.
    pub data: Result<Vec<u8>, String>,
}

/// What became of a file, as mathematics.
#[verifier::ext_equal]
pub struct FileModel {
    pub uri: Seq<char>,
    pub path: Seq<char>,
    pub located: Result<Seq<char>, Seq<char>>,
    pub data: Result<Seq<u8>, Seq<char>>,
}

impl View for FileContent {
    type V = FileModel;

    open spec fn view(&self) -> FileModel {
        FileModel {
            uri: self.uri@,
            path: self.path@,
            located: match self.located {
                Ok(extension) => Ok(extension@),
                Err(message) => Err(message@),
            },
            data: match self.data {
                Ok(bytes) => Ok(bytes@),
                Err(message) => Err(message@),
            },
        }
    }
}

/// The views of a list of files.
pub open spec fn file_models(files: Seq<FileContent>) -> Seq<FileModel> {
    Seq::new(files.len(), |i: int| files[i]@)
}

/// The first file from `index` on that has this name.
pub open spec fn file_from(files: Seq<FileModel>, uri: Seq<char>, index: int) -> Option<FileModel>
    decreases files.len() - index,
{
    if !(0 <= index < files.len()) {
        None
    } else if files[index].uri == uri {
        Some(files[index])
    } else {
        file_from(files, uri, index + 1)
    }
}

fn find_file<'a>(files: &'a [FileContent], uri: &str) -> (result: Option<&'a FileContent>)
    ensures
        match result {
            Some(file) => file_from(file_models(files@), uri@, 0) == Some(file@),
            None => file_from(file_models(files@), uri@, 0) is None,
        },
{
    let ghost all = file_models(files@);
    let mut i: usize = 0;
    while i < files.len()
        invariant
            i <= files@.len(),
            all == file_models(files@),
            file_from(all, uri@, 0) == file_from(all, uri@, i as int),
        decreases files@.len() - i,
    {
        assert(all[i as int] == files@[i as int]@);
        if same_text(files[i].uri.as_str(), uri) {
            return Some(&files[i]);
        }
        i += 1;
    }
    None
}

/// Whether a piece of a path that begins at `start` goes up to the parent directory.
pub open spec fn goes_up_at(path: Seq<char>, start: int) -> bool {
    &&& 0 <= start
    &&& start + 2 <= path.len()
    &&& start == 0 || path[start - 1] == '/'
    &&& path[start] == '.' && path[start + 1] == '.'
    &&& start + 2 == path.len() || path[start + 2] == '/'
}

/// Whether a path is relative and never goes up to a parent directory.
pub open spec fn stays_below_root(path: Seq<char>) -> bool {
    !(path.len() > 0 && path[0] == '/') && forall|start: int| !(#[trigger] goes_up_at(path, start))
}

/// Says whether a path is relative and never goes up to a parent directory.
pub fn is_below_root(path: &str) -> (result: bool)
    ensures
        result == stays_below_root(path@),
{
    let text: Vec<char> = characters(path);
    if text.len() > 0 && text[0] == '/' {
        return false;
    }
    let mut start: usize = 0;
    while start < text.len()
        invariant
            start <= text@.len(),
            text@ == path@,
            !(text@.len() > 0 && text@[0] == '/'),
            forall|s: int| s < start ==> !(#[trigger] goes_up_at(text@, s)),
        decreases text@.len() - start,
    {
        if text.len() - start >= 2 && (start == 0 || text[start - 1] == '/') && text[start] == '.'
            && text[start + 1] == '.' && (start + 2 == text.len() || text[start + 2] == '/') {
            assert(goes_up_at(text@, start as int));
            return false;
        }
        assert(!goes_up_at(text@, start as int));
        start += 1;
    }
    assert forall|s: int| !(#[trigger] goes_up_at(path@, s)) by {
        if s >= start {
            assert(!goes_up_at(path@, s));
        }
    }
    true
}

/// The refusal of a path that leaves the root.
pub open spec fn path_refusal(uri: Seq<char>) -> Seq<char> {
    "asset path is absolute or traverses outside root: "@ + uri
}

/// The file that a document names, where it was found.
pub open spec fn named_file(files: Seq<FileModel>, uri: Seq<char>) -> Outcome<FileModel> {
    if !stays_below_root(uri) {
        Err(path_refusal(uri))
    } else {
        match file_from(files, uri, 0) {
            None => Err("asset was not provided: "@ + uri),
            Some(file) => match file.located {
                Err(message) => Err(message),
                Ok(_) => Ok(file),
            },
        }
    }
}

fn get_file<'a>(files: &'a [FileContent], uri: &str) -> (result: Result<&'a FileContent, GltfError>)
    ensures
        yields(
            result,
            named_file(file_models(files@), uri@),
            |file: &'a FileContent| file@,
        ),
{
    if !is_below_root(uri) {
        return Err(
            GltfError::about("asset path is absolute or traverses outside root: ", uri),
        );
    }
    match find_file(files, uri) {
        None => Err(GltfError::about("asset was not provided: ", uri)),
        Some(file) => match &file.located {
            Err(message) => Err(GltfError::new(message.as_str())),
            Ok(_) => Ok(file),
        },
    }
}

/// The first position from `start` on that holds `wanted`, or the end.
pub open spec fn position_of(text: Seq<char>, wanted: char, start: int) -> int
    decreases text.len() - start,
{
    if 0 <= start < text.len() && text[start] != wanted {
        position_of(text, wanted, start + 1)
    } else {
        start
    }
}

fn find_position(text: &Vec<char>, wanted: char, start: usize) -> (result: usize)
    requires
        start <= text@.len(),
    ensures
        result == position_of(text@, wanted, start as int),
        start <= result <= text@.len(),
        result < text@.len() ==> text@[result as int] == wanted,
{
    let mut i: usize = start;
    while i < text.len() && text[i] != wanted
        invariant
            start <= i <= text@.len(),
            position_of(text@, wanted, start as int) == position_of(text@, wanted, i as int),
        decreases text@.len() - i,
    {
        i += 1;
    }
    i
}

/// Whether a URI carries its data itself.
pub open spec fn is_data_uri(uri: Seq<char>) -> bool {
    uri.len() >= 5 && uri.take(5) == seq!['d', 'a', 't', 'a', ':']
}

/// Where the header of a data URI ends: at its first comma, or at its end.
pub open spec fn header_end(uri: Seq<char>) -> int {
    position_of(uri, ',', 5)
}

/// The bytes that a data URI carries after its comma.
pub open spec fn payload(uri: Seq<char>) -> Outcome<Seq<u8>> {
    decoded(encode_utf8(uri.subrange(header_end(uri) + 1, uri.len() as int)))
}

/// The media type that a data URI names: its header up to the first semicolon.
pub open spec fn media_type(uri: Seq<char>) -> Seq<char> {
    let header = uri.subrange(5, header_end(uri));
    header.take(position_of(header, ';', 0))
}

fn starts_as_data(text: &Vec<char>) -> (result: bool)
    ensures
        result == is_data_uri(text@),
{
    if text.len() < 5 {
        return false;
    }
    let found: bool = text[0] == 'd' && text[1] == 'a' && text[2] == 't' && text[3] == 'a'
        && text[4] == ':';
    proof {
        let head = text@.take(5);
        let word = seq!['d', 'a', 't', 'a', ':'];
        if found {
            assert(head =~= word);
        } else {
            assert(head[0] == text@[0] && head[1] == text@[1] && head[2] == text@[2] && head[3]
                == text@[3] && head[4] == text@[4]);
            assert(word[0] == 'd' && word[1] == 'a' && word[2] == 't' && word[3] == 'a' && word[4]
                == ':');
        }
    }
    found
}

/// The bytes that a URI stands for, in the words of buffer `index`.
pub open spec fn buffer_bytes(uri: Seq<char>, files: Seq<FileModel>, index: int) -> Outcome<
    Seq<u8>,
> {
    if is_data_uri(uri) {
        if header_end(uri) >= uri.len() {
            Err("buffer "@ + decimal_digits(index as nat) + " has an invalid data URI"@)
        } else {
            payload(uri)
        }
    } else {
        match named_file(files, uri) {
            Err(message) => Err(message),
            Ok(file) => match file.data {
                Err(message) => Err("buffer "@ + file.path + ": "@ + message),
                Ok(bytes) => Ok(bytes),
            },
        }
    }
}

/// Buffer `index`. It must hold as many bytes as it says.
pub open spec fn buffer_from(value: Model, files: Seq<FileModel>, index: int) -> Outcome<Seq<u8>> {
    match object_of(value, "buffer"@) {
        Err(message) => Err(message),
        Ok(o) => match required_usize(o, "byteLength"@) {
            Err(message) => Err(message),
            Ok(expected) => match optional_text(o, "uri"@) {
                Err(message) => Err(message),
                Ok(None) => Err("GLB binary buffers are unsupported; buffer needs uri"@),
                Ok(Some(uri)) => match buffer_bytes(uri, files, index) {
                    Err(message) => Err(message),
                    Ok(bytes) => if bytes.len() < expected {
                        Err(
                            "buffer "@ + decimal_digits(index as nat)
                                + " is shorter than byteLength"@,
                        )
                    } else {
                        Ok(bytes)
                    },
                },
            },
        },
    }
}

pub open spec fn buffers_from(items: Seq<Model>, files: Seq<FileModel>) -> Outcome<Seq<Seq<u8>>> {
    collected(items, |i: int, value: Model| buffer_from(value, files, i))
}

fn copy_bytes(bytes: &Vec<u8>) -> (result: Vec<u8>)
    ensures
        result@ == bytes@,
{
    let mut copy: Vec<u8> = Vec::new();
    let mut i: usize = 0;
    while i < bytes.len()
        invariant
            i <= bytes@.len(),
            copy@ =~= bytes@.take(i as int),
        decreases bytes@.len() - i,
    {
        copy.push(bytes[i]);
        i += 1;
    }
    assert(bytes@.take(bytes@.len() as int) =~= bytes@);
    copy
}

fn file_bytes(file: &FileContent) -> (result: Result<Vec<u8>, GltfError>)
    ensures
        yields(result, file@.data, |bytes: Vec<u8>| bytes@),
{
    match &file.data {
        Ok(bytes) => Ok(copy_bytes(bytes)),
        Err(message) => Err(GltfError::new(message.as_str())),
    }
}

fn read_buffer(uri: &str, files: &[FileContent], index: usize) -> (result: Result<
    Vec<u8>,
    GltfError,
>)
    ensures
        yields(
            result,
            buffer_bytes(uri@, file_models(files@), index as int),
            |bytes: Vec<u8>| bytes@,
        ),
{
    let text: Vec<char> = characters(uri);
    if starts_as_data(&text) {
        let comma: usize = find_position(&text, ',', 5);
        if comma >= text.len() {
            return Err(GltfError::numbered("buffer ", index, " has an invalid data URI"));
        }
        let encoded: String = text_of(text.as_slice(), comma + 1, text.len());
        decode_base64(encoded.as_str())
    } else {
        let file: &FileContent = get_file(files, uri)?;
        match &file.data {
            Ok(bytes) => Ok(copy_bytes(bytes)),
            Err(message) => {
                let place: String = join3("buffer ", file.path.as_str(), ": ");
                Err(GltfError::about(place.as_str(), message.as_str()))
            },
        }
    }
}

fn load_buffer(value: &Value, files: &[FileContent], index: usize) -> (result: Result<
    Vec<u8>,
    GltfError,
>)
    ensures
        yields(
            result,
            buffer_from(value@, file_models(files@), index as int),
            |bytes: Vec<u8>| bytes@,
        ),
{
    let o: &[(String, Value)] = as_object(value, "buffer")?;
    let expected: usize = get_usize(o, "byteLength")?;
    match get_optional_string(o, "uri")? {
        None => Err(GltfError::new("GLB binary buffers are unsupported; buffer needs uri")),
        Some(uri) => {
            let bytes: Vec<u8> = read_buffer(uri, files, index)?;
            if bytes.len() < expected {
                return Err(GltfError::numbered("buffer ", index, " is shorter than byteLength"));
            }
            Ok(bytes)
        },
    }
}

/// Loads the buffers of a document.
pub fn load_buffers(items: &[Value], files: &[FileContent]) -> (result: Result<
    Vec<Vec<u8>>,
    GltfError,
>)
    ensures
        yields(
            result,
            buffers_from(models(items@), file_models(files@)),
            |buffers: Vec<Vec<u8>>| contents(buffers@),
        ),
{
    let ghost all = models(items@);
    let ghost known = file_models(files@);
    let ghost read = |i: int, value: Model| buffer_from(value, known, i);
    let mut buffers: Vec<Vec<u8>> = Vec::new();
    let mut i: usize = 0;
    proof {
        lemma_collected_all(all, read);
        assert(contents(buffers@) =~= Seq::empty());
    }
    while i < items.len()
        invariant
            i <= items@.len(),
            all == models(items@),
            known == file_models(files@),
            read == (|i: int, value: Model| buffer_from(value, known, i)),
            collected(all.take(i as int), read) == Ok::<Seq<Seq<u8>>, Seq<char>>(
                contents(buffers@),
            ),
        decreases items@.len() - i,
    {
        proof {
            lemma_collected_next(all, read, i as int);
        }
        match load_buffer(&items[i], files, i) {
            Ok(bytes) => {
                let ghost before = contents(buffers@);
                let ghost found = bytes@;
                buffers.push(bytes);
                assert(contents(buffers@) =~= before.push(found));
            },
            Err(error) => {
                return Err(error);
            },
        }
        i += 1;
    }
    proof {
        lemma_collected_all(all, read);
    }
    Ok(buffers)
}

/// An image format that can be decoded.
#[derive(Clone, Copy, PartialEq, Eq, Structural, Debug)]
pub enum ImageFormat {
    Qoi,
    Ppm,
}

/// An image of a document, still encoded.
#[derive(Debug, PartialEq, Eq)]
pub struct ImageData {
    pub format: ImageFormat,
    pub bytes: Vec<u8>,
}

/// An image as mathematics.
#[verifier::ext_equal]
pub struct ImageModel {
    pub format: ImageFormat,
    pub bytes: Seq<u8>,
}

impl View for ImageData {
    type V = ImageModel;

    open spec fn view(&self) -> ImageModel {
        ImageModel { format: self.format, bytes: self.bytes@ }
    }
}

/// The views of a list of images.
pub open spec fn image_models(images: Seq<ImageData>) -> Seq<ImageModel> {
    Seq::new(images.len(), |i: int| images[i]@)
}

/// The format that a media type stands for.
pub open spec fn format_of_type(name: Seq<char>) -> Outcome<ImageFormat> {
    if name == "image/qoi"@ || name == "image/x-qoi"@ {
        Ok(ImageFormat::Qoi)
    } else if name == "image/x-portable-pixmap"@ || name == "image/ppm"@ {
        Ok(ImageFormat::Ppm)
    } else {
        Err("unsupported glTF image MIME type "@ + name)
    }
}

/// The format that a file extension stands for.
pub open spec fn format_of_extension(extension: Seq<char>) -> Outcome<ImageFormat> {
    if extension == "qoi"@ {
        Ok(ImageFormat::Qoi)
    } else if extension == "ppm"@ {
        Ok(ImageFormat::Ppm)
    } else {
        Err("unsupported glTF image format"@)
    }
}

/// The image that a URI stands for.
pub open spec fn image_bytes(uri: Seq<char>, files: Seq<FileModel>) -> Outcome<ImageModel> {
    if is_data_uri(uri) {
        if header_end(uri) >= uri.len() {
            Err("invalid image data URI"@)
        } else {
            match payload(uri) {
                Err(message) => Err(message),
                Ok(bytes) => match format_of_type(media_type(uri)) {
                    Err(message) => Err(message),
                    Ok(format) => Ok(ImageModel { format, bytes }),
                },
            }
        }
    } else {
        match named_file(files, uri) {
            Err(message) => Err(message),
            Ok(file) => match format_of_extension(file.located->Ok_0) {
                Err(message) => Err(message),
                Ok(format) => match file.data {
                    Err(message) => Err(message),
                    Ok(bytes) => Ok(ImageModel { format, bytes }),
                },
            },
        }
    }
}

pub open spec fn image_from(value: Model, files: Seq<FileModel>) -> Outcome<ImageModel> {
    match object_of(value, "image"@) {
        Err(message) => Err(message),
        Ok(o) => match optional_usize(o, "bufferView"@) {
            Err(message) => Err(message),
            Ok(Some(_)) => Err("bufferView images are unsupported"@),
            Ok(None) => match optional_text(o, "uri"@) {
                Err(message) => Err(message),
                Ok(None) => Err("image needs uri"@),
                Ok(Some(uri)) => image_bytes(uri, files),
            },
        },
    }
}

pub open spec fn images_from(o: Members, files: Seq<FileModel>) -> Outcome<Seq<ImageModel>> {
    match array_or_empty(o, "images"@) {
        Err(message) => Err(message),
        Ok(items) => collected(items, |i: int, value: Model| image_from(value, files)),
    }
}

fn parse_type(name: &str) -> (result: Result<ImageFormat, GltfError>)
    ensures
        yields(result, format_of_type(name@), |format: ImageFormat| format),
{
    if same_text(name, "image/qoi") || same_text(name, "image/x-qoi") {
        Ok(ImageFormat::Qoi)
    } else if same_text(name, "image/x-portable-pixmap") || same_text(name, "image/ppm") {
        Ok(ImageFormat::Ppm)
    } else {
        Err(GltfError::about("unsupported glTF image MIME type ", name))
    }
}

fn parse_extension(extension: &str) -> (result: Result<ImageFormat, GltfError>)
    ensures
        yields(result, format_of_extension(extension@), |format: ImageFormat| format),
{
    if same_text(extension, "qoi") {
        Ok(ImageFormat::Qoi)
    } else if same_text(extension, "ppm") {
        Ok(ImageFormat::Ppm)
    } else {
        Err(GltfError::new("unsupported glTF image format"))
    }
}

fn data_image(text: &Vec<char>) -> (result: Result<ImageData, GltfError>)
    requires
        is_data_uri(text@),
    ensures
        forall|files: Seq<FileModel>|
            yields(result, #[trigger] image_bytes(text@, files), |image: ImageData| image@),
{
    let comma: usize = find_position(text, ',', 5);
    if comma >= text.len() {
        return Err(GltfError::new("invalid image data URI"));
    }
    let encoded: String = text_of(text.as_slice(), comma + 1, text.len());
    let bytes: Vec<u8> = decode_base64(encoded.as_str())?;
    let mut header: Vec<char> = Vec::new();
    let mut i: usize = 5;
    while i < comma
        invariant
            5 <= i <= comma < text@.len(),
            header@ =~= text@.subrange(5, i as int),
        decreases comma - i,
    {
        header.push(text[i]);
        i += 1;
    }
    let end: usize = find_position(&header, ';', 0);
    let name: String = text_of(header.as_slice(), 0, end);
    assert(name@ =~= media_type(text@));
    let format: ImageFormat = parse_type(name.as_str())?;
    Ok(ImageData { format, bytes })
}

fn read_image(uri: &str, files: &[FileContent]) -> (result: Result<ImageData, GltfError>)
    ensures
        yields(result, image_bytes(uri@, file_models(files@)), |image: ImageData| image@),
{
    let text: Vec<char> = characters(uri);
    if starts_as_data(&text) {
        return data_image(&text);
    }
    let file: &FileContent = get_file(files, uri)?;
    match &file.located {
        Err(message) => Err(GltfError::new(message.as_str())),
        Ok(extension) => {
            let format: ImageFormat = parse_extension(extension.as_str())?;
            let bytes: Vec<u8> = file_bytes(file)?;
            Ok(ImageData { format, bytes })
        },
    }
}

fn load_image(value: &Value, files: &[FileContent]) -> (result: Result<ImageData, GltfError>)
    ensures
        yields(result, image_from(value@, file_models(files@)), |image: ImageData| image@),
{
    let o: &[(String, Value)] = as_object(value, "image")?;
    if get_optional_usize(o, "bufferView")?.is_some() {
        return Err(GltfError::new("bufferView images are unsupported"));
    }
    match get_optional_string(o, "uri")? {
        None => Err(GltfError::new("image needs uri")),
        Some(uri) => read_image(uri, files),
    }
}

/// Loads the images of a document, still encoded.
pub fn load_images(object: &[(String, Value)], files: &[FileContent]) -> (result: Result<
    Vec<ImageData>,
    GltfError,
>)
    ensures
        yields(
            result,
            images_from(member_models(object@), file_models(files@)),
            |images: Vec<ImageData>| image_models(images@),
        ),
{
    let items: &[Value] = get_array_or_empty(object, "images")?;
    let ghost all = models(items@);
    let ghost known = file_models(files@);
    let ghost read = |i: int, value: Model| image_from(value, known);
    let mut images: Vec<ImageData> = Vec::new();
    let mut i: usize = 0;
    proof {
        lemma_collected_all(all, read);
        assert(image_models(images@) =~= Seq::empty());
    }
    while i < items.len()
        invariant
            i <= items@.len(),
            all == models(items@),
            known == file_models(files@),
            read == (|i: int, value: Model| image_from(value, known)),
            images_from(member_models(object@), known) == collected(all, read),
            collected(all.take(i as int), read) == Ok::<Seq<ImageModel>, Seq<char>>(
                image_models(images@),
            ),
        decreases items@.len() - i,
    {
        proof {
            lemma_collected_next(all, read, i as int);
        }
        match load_image(&items[i], files) {
            Ok(image) => {
                let ghost before = image_models(images@);
                let ghost found = image@;
                images.push(image);
                assert(image_models(images@) =~= before.push(found));
            },
            Err(error) => {
                return Err(error);
            },
        }
        i += 1;
    }
    proof {
        lemma_collected_all(all, read);
    }
    Ok(images)
}

/// The file that an item of a document names, where its loading reads one.
pub open spec fn item_file(item: Model) -> Option<Seq<char>> {
    match object_of(item, Seq::empty()) {
        Err(_) => None,
        Ok(o) => match optional_text(o, "uri"@) {
            Ok(Some(uri)) => if is_data_uri(uri) || !stays_below_root(uri) {
                None
            } else {
                Some(uri)
            },
            _ => None,
        },
    }
}

/// The files that the first `count` items of a list name.
pub open spec fn item_files(items: Seq<Model>, count: nat) -> Seq<Seq<char>>
    decreases count,
{
    if count == 0 {
        Seq::empty()
    } else {
        let before = item_files(items, (count - 1) as nat);
        match item_file(items[count - 1]) {
            Some(uri) => before.push(uri),
            None => before,
        }
    }
}

/// The files that a list of a document names.
pub open spec fn listed_files(object: Members, key: Seq<char>) -> Seq<Seq<char>> {
    match array_or_empty(object, key) {
        Err(_) => Seq::empty(),
        Ok(items) => item_files(items, items.len()),
    }
}

fn find_item_file(item: &Value) -> (result: Option<String>)
    ensures
        match result {
            Some(uri) => item_file(item@) == Some(uri@),
            None => item_file(item@) is None,
        },
{
    match item {
        Value::Object(members) => {
            proof {
                crate::json::lemma_object_view(*members);
            }
            match get_optional_string(members.as_slice(), "uri") {
                Ok(Some(uri)) => {
                    let text: Vec<char> = characters(uri);
                    if starts_as_data(&text) || !is_below_root(uri) {
                        None
                    } else {
                        Some(uri.to_owned())
                    }
                },
                _ => None,
            }
        },
        _ => None,
    }
}

/// Appends the files that a list of a document names.
pub fn push_listed_files(object: &[(String, Value)], key: &str, files: &mut Vec<String>)
    ensures
        texts(final(files)@) == texts(old(files)@) + listed_files(member_models(object@), key@),
{
    let ghost before = texts(files@);
    match get_array_or_empty(object, key) {
        Err(_) => {
            assert(before + Seq::<Seq<char>>::empty() =~= before);
        },
        Ok(items) => {
            let ghost all = models(items@);
            let mut i: usize = 0;
            assert(before + item_files(all, 0) =~= before);
            while i < items.len()
                invariant
                    i <= items@.len(),
                    all == models(items@),
                    texts(files@) == before + item_files(all, i as nat),
                decreases items@.len() - i,
            {
                let ghost now = texts(files@);
                assert(all[i as int] == items@[i as int]@);
                if let Some(uri) = find_item_file(&items[i]) {
                    let ghost name = uri@;
                    files.push(uri);
                    assert(texts(files@) =~= now.push(name));
                    assert(now.push(name) =~= before + item_files(all, i as nat).push(name));
                }
                i += 1;
            }
        },
    }
}

} // verus!
