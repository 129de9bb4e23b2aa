//! The key holder of a structure as it is declared: which fields it takes
//! over, and how.
use vstd::prelude::*;
use vstd::string::StringExecFns;
use vstd::utf8::{encode_utf8, encode_utf8_decode_utf8};

verus! {

/// One segment of a path as it is written: its name, and whether arguments
/// follow the name.
pub struct PathSegment {
    pub ident: String,
    pub has_arguments: bool,
}

/// A path as it is written in a type or an attribute.
pub struct Path {
    pub leading_colon: bool,
    pub segments: Vec<PathSegment>,
}

/// A type as it is written in a declaration, as far as a key holder asks.
pub enum Type {
    Path(Path),
    Array(Box<Type>),
    Other,
}

/// A field of a structure as it is declared: the paths of its attributes,
/// its name where it has one, and its type.
pub struct Field {
    pub attrs: Vec<Path>,
    pub ident: Option<String>,
    pub ty: Type,
}

/// A structure as it is declared.
pub struct ItemStruct {
    pub ident: String,
    pub fields: Vec<Field>,
}

/// Whether two texts are the same.
fn same_text(a: &str, b: &str) -> (r: bool)
    ensures
        r == (a@ == b@),
{
    let x = a.as_bytes();
    let y = b.as_bytes();
    proof {
        encode_utf8_decode_utf8(a@);
        encode_utf8_decode_utf8(b@);
    }
    if x.len() != y.len() {
        return false;
    }
    let mut i: usize = 0;
    while i < x.len()
        invariant
            i <= x@.len(),
            x@.len() == y@.len(),
            x@ == encode_utf8(a@),
            y@ == encode_utf8(b@),
            forall|j: int| 0 <= j < i ==> x@[j] == y@[j],
        decreases x@.len() - i,
    {
        if x[i] != y[i] {
            return false;
        }
        i += 1;
    }
    assert(x@ == y@);
    true
}

impl Path {
    /// The name that the path is, where it is a single name: it has no
    /// leading colons, one segment, and no arguments.
    pub open spec fn single(self) -> Option<Seq<char>> {
        if !self.leading_colon && self.segments@.len() == 1 && !self.segments@[0].has_arguments {
            Some(self.segments@[0].ident@)
        } else {
            None
        }
    }

    /// Whether the path is the single name `ident`.
    pub open spec fn names(self, ident: Seq<char>) -> bool {
        self.single() == Some(ident)
    }

    /// Whether the path is the single name `ident`.
    pub fn is_ident(&self, ident: &str) -> (r: bool)
        ensures
            r == self.names(ident@),
    {
        !self.leading_colon && self.segments.len() == 1 && !self.segments[0].has_arguments && same_text(
            self.segments[0].ident.as_str(),
            ident,
        )
    }
}

/// Whether a path is the attribute that marks a key field.
pub open spec fn marks_key(attr: Path) -> bool {
    attr.names("topic_key"@)
}

/// Whether one of the first `n` attributes marks a key field.
pub open spec fn any_marks_key(attrs: Seq<Path>, n: nat) -> bool
    decreases n,
{
    if n == 0 || n > attrs.len() {
        false
    } else {
        any_marks_key(attrs, (n - 1) as nat) || marks_key(attrs[n - 1])
    }
}

/// An attribute that marks a key among the first marks it among all.
pub proof fn lemma_any_marks_key_grows(attrs: Seq<Path>, k: nat, n: nat)
    requires
        k <= n <= attrs.len(),
        any_marks_key(attrs, k),
    ensures
        any_marks_key(attrs, n),
    decreases n,
{
    if k < n {
        lemma_any_marks_key_grows(attrs, k, (n - 1) as nat);
    }
}

impl Field {
    /// Whether the field is marked as a key field.
    pub open spec fn key(self) -> bool {
        any_marks_key(self.attrs@, self.attrs@.len())
    }
}

/// Whether a field is marked as a key field: whether one of its attributes
/// is `topic_key`.
pub fn is_key(field: &Field) -> (r: bool)
    ensures
        r == field.key(),
{
    let mut i: usize = 0;
    while i < field.attrs.len()
        invariant
            i <= field.attrs@.len(),
            !any_marks_key(field.attrs@, i as nat),
        decreases field.attrs@.len() - i,
    {
        if field.attrs[i].is_ident("topic_key") {
            proof {
                assert(any_marks_key(field.attrs@, (i + 1) as nat));
                lemma_any_marks_key_grows(field.attrs@, (i + 1) as nat, field.attrs@.len());
            }
            return true;
        }
        i += 1;
    }
    false
}

/// Whether one of the first `n` fields is a key field.
pub open spec fn any_key(fields: Seq<Field>, n: nat) -> bool
    decreases n,
{
    if n == 0 || n > fields.len() {
        false
    } else {
        any_key(fields, (n - 1) as nat) || fields[n - 1].key()
    }
}

/// A key field among the first is one among all.
pub proof fn lemma_any_key_grows(fields: Seq<Field>, k: nat, n: nat)
    requires
        k <= n <= fields.len(),
        any_key(fields, k),
    ensures
        any_key(fields, n),
    decreases n,
{
    if k < n {
        lemma_any_key_grows(fields, k, (n - 1) as nat);
    }
}

/// Whether a structure has a key field.
pub fn struct_has_key(it: &ItemStruct) -> (r: bool)
    ensures
        r == any_key(it.fields@, it.fields@.len()),
{
    let mut i: usize = 0;
    while i < it.fields.len()
        invariant
            i <= it.fields@.len(),
            !any_key(it.fields@, i as nat),
        decreases it.fields@.len() - i,
    {
        if is_key(&it.fields[i]) {
            proof {
                assert(any_key(it.fields@, (i + 1) as nat));
                lemma_any_key_grows(it.fields@, (i + 1) as nat, it.fields@.len());
            }
            return true;
        }
        i += 1;
    }
    false
}

/// Whether a path is the name of a primitive type, a text among them.
pub open spec fn primitive_path(path: Path) -> bool {
    path.names("bool"@) || path.names("i8"@) || path.names("i16"@) || path.names("i32"@) || path.names("i64"@)
        || path.names("i128"@) || path.names("isize"@) || path.names("u8"@) || path.names("u16"@) || path.names(
        "u32"@,
    ) || path.names("u64"@) || path.names("u128"@) || path.names("usize"@) || path.names("f32"@) || path.names(
        "f64"@,
    ) || path.names("String"@)
}

/// Whether a path is the name of a primitive type, a text among them.
pub fn is_primitive_type_path(type_path: &Path) -> (r: bool)
    ensures
        r == primitive_path(*type_path),
{
    if type_path.is_ident("bool") || type_path.is_ident("i8") || type_path.is_ident("i16") || type_path.is_ident(
        "i32",
    ) || type_path.is_ident("i64") || type_path.is_ident("i128") || type_path.is_ident("isize")
        || type_path.is_ident("u8") || type_path.is_ident("u16") || type_path.is_ident("u32") || type_path.is_ident(
        "u64",
    ) || type_path.is_ident("u128") || type_path.is_ident("usize") || type_path.is_ident("f32")
        || type_path.is_ident("f64") || type_path.is_ident("String") {
        true
    } else {
        false
    }
}

/// Whether the type of a field is primitive. What is not primitive is
/// taken for a structure.
pub fn is_primitive(field: &Field) -> (r: bool)
    ensures
        r == (field.ty is Path && primitive_path(field.ty->Path_0)),
{
    if let Type::Path(type_path) = &field.ty {
        is_primitive_type_path(type_path)
    } else {
        false
    }
}

/// Whether a path is written as a vector, with or without the type of its
/// elements.
pub open spec fn sequence_path(path: Path) -> bool {
    !path.leading_colon && path.segments@.len() == 1 && path.segments@[0].ident@ == "Vec"@
}

/// Whether the encoding of a type as it is written can vary in length: it
/// is a text, a vector, or an array of such.
pub open spec fn varies_in_length(ty: Type) -> bool
    decreases ty,
{
    match ty {
        Type::Path(path) => path.names("String"@) || sequence_path(path),
        Type::Array(element) => varies_in_length(*element),
        Type::Other => false,
    }
}

/// Whether a path is written as a vector.
fn is_sequence(path: &Path) -> (r: bool)
    ensures
        r == sequence_path(*path),
{
    !path.leading_colon && path.segments.len() == 1 && same_text(path.segments[0].ident.as_str(), "Vec")
}

/// Whether the encoding of a type as it is written can vary in length.
fn type_varies(ty: &Type) -> (r: bool)
    ensures
        r == varies_in_length(*ty),
    decreases ty,
{
    match ty {
        Type::Path(type_path) => type_path.is_ident("String") || is_sequence(type_path),
        Type::Array(element) => type_varies(element),
        Type::Other => false,
    }
}

/// Whether the type of a field has no fixed length: whether it is written
/// as a text, as a vector, or as an array of such. The length that counts
/// is the one that the type allows, not that of a value.
pub fn is_variable_length(field: &Field) -> (r: bool)
    ensures
        r == varies_in_length(field.ty),
{
    type_varies(&field.ty)
}

/// One segment of a path as it is written.
pub struct PathSegmentView {
    pub ident: Seq<char>,
    pub has_arguments: bool,
}

/// A path as it is written.
pub struct PathView {
    pub leading_colon: bool,
    pub segments: Seq<PathSegmentView>,
}

/// A type as it is written.
pub enum TypeView {
    Path(PathView),
    Array(Box<TypeView>),
    Other,
}

impl View for PathSegment {
    type V = PathSegmentView;

    open spec fn view(&self) -> PathSegmentView {
        PathSegmentView { ident: self.ident@, has_arguments: self.has_arguments }
    }
}

impl View for Path {
    type V = PathView;

    open spec fn view(&self) -> PathView {
        PathView {
            leading_colon: self.leading_colon,
            segments: Seq::new(self.segments@.len(), |i: int| self.segments@[i]@),
        }
    }
}

impl View for Type {
    type V = TypeView;

    open spec fn view(&self) -> TypeView
        decreases self,
    {
        match self {
            Type::Path(path) => TypeView::Path(path@),
            Type::Array(element) => TypeView::Array(Box::new((**element).view())),
            Type::Other => TypeView::Other,
        }
    }
}

impl Clone for Path {
    fn clone(&self) -> (r: Self)
        ensures
            r@ == self@,
    {
        let mut segments: Vec<PathSegment> = Vec::new();
        let mut i: usize = 0;
        while i < self.segments.len()
            invariant
                i <= self.segments@.len(),
                segments@.len() == i,
                forall|j: int| 0 <= j < i ==> (#[trigger] segments@[j])@ == self.segments@[j]@,
            decreases self.segments@.len() - i,
        {
            segments.push(
                PathSegment {
                    ident: self.segments[i].ident.clone(),
                    has_arguments: self.segments[i].has_arguments,
                },
            );
            i += 1;
        }
        let r = Path { leading_colon: self.leading_colon, segments };
        assert(r@.segments == self@.segments);
        r
    }
}

impl Clone for Type {
    fn clone(&self) -> (r: Self)
        ensures
            r@ == self@,
        decreases self,
    {
        match self {
            Type::Path(path) => Type::Path(path.clone()),
            Type::Array(element) => Type::Array(Box::new((**element).clone())),
            Type::Other => Type::Other,
        }
    }
}

/// How a key holder takes a field over from the structure.
#[derive(Debug, PartialEq, Eq, Structural, Clone, Copy)]
pub enum Conversion {
    /// A copy of the field.
    Clone,
    /// The key holder of the field, made from a reference to it.
    Into,
}

/// A field of a key holder.
pub struct KeyHolderField {
    pub ident: String,
    pub ty: Type,
    pub conversion: Conversion,
}

/// A field of a key holder.
pub struct KeyHolderFieldView {
    pub ident: Seq<char>,
    pub ty: TypeView,
    pub conversion: Conversion,
}

impl View for KeyHolderField {
    type V = KeyHolderFieldView;

    open spec fn view(&self) -> KeyHolderFieldView {
        KeyHolderFieldView { ident: self.ident@, ty: self.ty@, conversion: self.conversion }
    }
}

/// The key holder of a structure as it is to be declared: its name, the
/// name of the structure, its fields, the key holders that its fields name,
/// and whether one of its own fields can vary in length. Whether the key as
/// a whole can is told by `key_varies`, from this flag and the answers of
/// the key holders that the fields name. Whether the key hash of the type is
/// a digest is more than that: it is the scheme of the type, which
/// `key::classify` decides on the shape of the type, lengths of arrays
/// included.
pub struct KeyHolder {
    pub ident: String,
    pub source: String,
    pub fields: Vec<KeyHolderField>,
    pub contained_types: Vec<Type>,
    pub variable_length: bool,
}

/// What a key holder gathers from the fields of a structure.
pub struct Gathered {
    pub fields: Seq<KeyHolderFieldView>,
    pub contained_types: Seq<TypeView>,
    pub variable_length: bool,
}

/// Why a structure has no key holder.
#[derive(Debug, PartialEq, Eq, Structural, Clone, Copy)]
pub enum DeriveError {
    /// A key field has no name.
    UnnamedField,
    /// A key field is an array of something else than primitives.
    NonPrimitiveArray,
    /// A key field is an array whose element is not written as a path.
    UnsupportedArray,
    /// A key field is neither a primitive, nor a path, nor an array.
    UnsupportedKey,
}

/// What is written behind the name of a type to name its key holder.
pub open spec fn holder_suffix() -> Seq<char> {
    "KeyHolder_"@
}

/// The path of the key holder of the type that a path names: the same path
/// with the suffix behind the name in its last segment.
pub open spec fn holder_path(path: PathView) -> PathView {
    if path.segments.len() == 0 {
        path
    } else {
        let last = path.segments.last();
        PathView {
            segments: path.segments.drop_last().push(
                PathSegmentView { ident: last.ident + holder_suffix(), ..last },
            ),
            ..path
        }
    }
}

/// What a key holder takes over from one key field: the field, the key
/// holder that it names where it is a structure, and whether its encoding can
/// vary in length. A primitive, a vector and an array of primitives are
/// taken over as they are; every other path is taken for a structure.
pub open spec fn gathered_field(field: Field) -> Result<(KeyHolderFieldView, Option<TypeView>, bool), DeriveError> {
    if field.ident is None {
        Err(DeriveError::UnnamedField)
    } else {
        let ident = field.ident->Some_0@;
        let kept = KeyHolderFieldView { ident, ty: field.ty@, conversion: Conversion::Clone };
        match field.ty {
            Type::Path(path) => if primitive_path(path) || sequence_path(path) {
                Ok((kept, None, varies_in_length(field.ty)))
            } else {
                // if the key is another structure (not a primitive),
                // there should be a key holder structure for it.
                let ty = TypeView::Path(holder_path(path@));
                Ok((KeyHolderFieldView { ident, ty, conversion: Conversion::Into }, Some(ty), false))
            },
            Type::Array(element) => match *element {
                Type::Path(path) => if primitive_path(path) {
                    Ok((kept, None, varies_in_length(field.ty)))
                } else {
                    Err(DeriveError::NonPrimitiveArray)
                },
                _ => Err(DeriveError::UnsupportedArray),
            },
            Type::Other => Err(DeriveError::UnsupportedKey),
        }
    }
}

/// A key field that is a text, a vector, or an array of texts is taken over
/// as one that varies in length, whatever the other fields are.
pub proof fn lemma_text_key_varies(field: Field)
    requires
        field.ident is Some,
        varies_in_length(field.ty),
        gathered_field(field) is Ok,
    ensures
        gathered_field(field)->Ok_0.2,
{
}

/// A structure with a key field that varies in length has a key holder that
/// varies in length, wherever the field stands among the others.
pub proof fn lemma_varying_key_field(fields: Seq<Field>, i: int, n: nat)
    requires
        0 <= i < n <= fields.len(),
        fields[i].key(),
        varies_in_length(fields[i].ty),
        gathered_upto(fields, n) is Ok,
    ensures
        gathered_upto(fields, n)->Ok_0.variable_length,
    decreases n,
{
    if i < n - 1 {
        lemma_varying_key_field(fields, i, (n - 1) as nat);
    } else {
        lemma_text_key_varies(fields[i]);
    }
}

/// What a key holder gathers from the first `n` fields of a structure: of
/// each key field, in order, what it takes over. The first key field that
/// it cannot take over leaves the structure without a key holder.
pub open spec fn gathered_upto(fields: Seq<Field>, n: nat) -> Result<Gathered, DeriveError>
    decreases n,
{
    if n == 0 || n > fields.len() {
        Ok(Gathered { fields: Seq::empty(), contained_types: Seq::empty(), variable_length: false })
    } else {
        match gathered_upto(fields, (n - 1) as nat) {
            Err(e) => Err(e),
            Ok(front) => if !fields[n - 1].key() {
                Ok(front)
            } else {
                match gathered_field(fields[n - 1]) {
                    Err(e) => Err(e),
                    Ok((field, contained, varies)) => Ok(
                        Gathered {
                            fields: front.fields.push(field),
                            contained_types: match contained {
                                Some(ty) => front.contained_types.push(ty),
                                None => front.contained_types,
                            },
                            variable_length: front.variable_length || varies,
                        },
                    ),
                }
            },
        }
    }
}

/// A key field that is refused among the first fields is refused among all.
pub proof fn lemma_gathered_upto_fails(fields: Seq<Field>, k: nat, n: nat)
    requires
        k <= n <= fields.len(),
        gathered_upto(fields, k) is Err,
    ensures
        gathered_upto(fields, n) == gathered_upto(fields, k),
    decreases n,
{
    if k < n {
        lemma_gathered_upto_fails(fields, k, (n - 1) as nat);
    }
}

/// The views of the fields of a key holder.
pub open spec fn field_views(fields: Seq<KeyHolderField>) -> Seq<KeyHolderFieldView> {
    Seq::new(fields.len(), |i: int| fields[i]@)
}

/// The views of types.
pub open spec fn type_views(types: Seq<Type>) -> Seq<TypeView> {
    Seq::new(types.len(), |i: int| types[i]@)
}

/// The name of the key holder of a structure named `ident`.
pub fn key_holder_ident(ident: &String) -> (r: String)
    ensures
        r@ == ident@ + holder_suffix(),
{
    let mut name = ident.clone();
    name.append("KeyHolder_");
    name
}

/// The path of the key holder of the type that `path` names.
fn holder_path_of(path: &Path) -> (r: Path)
    ensures
        r@ == holder_path(path@),
{
    let mut renamed = path.clone();
    match renamed.segments.pop() {
        None => {
            assert(renamed@.segments == path@.segments);
            renamed
        },
        Some(last) => {
            let ghost front = renamed.segments@;
            let ident = key_holder_ident(&last.ident);
            // replace the ident with the new name
            renamed.segments.push(PathSegment { ident, has_arguments: last.has_arguments });
            proof {
                let wanted = holder_path(path@);
                assert(renamed@.segments.len() == wanted.segments.len());
                assert forall|j: int| 0 <= j < wanted.segments.len() implies renamed@.segments[j]
                    == wanted.segments[j] by {
                    if j < front.len() {
                        assert(renamed.segments@[j] == front[j]);
                    }
                }
                assert(renamed@.segments == wanted.segments);
            }
            renamed
        },
    }
}

/// What a key holder takes over from one key field.
fn gather_field(field: &Field) -> (r: Result<(KeyHolderField, Option<Type>, bool), DeriveError>)
    ensures
        match gathered_field(*field) {
            Ok((wanted, contained, varies)) => r is Ok && r->Ok_0.0@ == wanted && r->Ok_0.2 == varies && match (
                r->Ok_0.1,
                contained,
            ) {
                (Some(got), Some(ty)) => got@ == ty,
                (None, None) => true,
                _ => false,
            },
            Err(e) => r == Err::<(KeyHolderField, Option<Type>, bool), DeriveError>(e),
        },
{
    let ident = match &field.ident {
        None => {
            return Err(DeriveError::UnnamedField);
        },
        Some(ident) => ident.clone(),
    };
    let varies = is_variable_length(field);
    if is_primitive(field) {
        return Ok((KeyHolderField { ident, ty: field.ty.clone(), conversion: Conversion::Clone }, None, varies));
    }
    match &field.ty {
        Type::Path(type_path) => {
            if is_sequence(type_path) {
                return Ok(
                    (KeyHolderField { ident, ty: field.ty.clone(), conversion: Conversion::Clone }, None, varies),
                );
            }
            let renamed = holder_path_of(type_path);
            let contained = Type::Path(renamed.clone());
            return Ok(
                (KeyHolderField { ident, ty: Type::Path(renamed), conversion: Conversion::Into }, Some(contained), false),
            );
        },
        Type::Array(type_arr) => {
            if let Type::Path(array_type_path) = &**type_arr {
                if is_primitive_type_path(array_type_path) {
                    return Ok(
                        (KeyHolderField { ident, ty: field.ty.clone(), conversion: Conversion::Clone }, None, varies),
                    );
                } else {
                    return Err(DeriveError::NonPrimitiveArray);
                }
            } else {
                return Err(DeriveError::UnsupportedArray);
            }
        },
        Type::Other => {
            return Err(DeriveError::UnsupportedKey);
        },
    }
}

/// Create a key holder struct from the given struct. The key fields will be
/// included in this structure, a key field that is a structure by the key
/// holder of its own. The structure will be empty if there are no key
/// fields.
pub fn build_key_holder_struct(item: &ItemStruct) -> (r: Result<KeyHolder, DeriveError>)
    ensures
        match gathered_upto(item.fields@, item.fields@.len()) {
            Ok(wanted) => r is Ok && r->Ok_0.ident@ == item.ident@ + holder_suffix() && r->Ok_0.source@
                == item.ident@ && field_views(r->Ok_0.fields@) == wanted.fields && type_views(
                r->Ok_0.contained_types@,
            ) == wanted.contained_types && r->Ok_0.variable_length == wanted.variable_length,
            Err(e) => r is Err && r->Err_0 == e,
        },
{
    let holder_name = key_holder_ident(&item.ident);
    let mut fields: Vec<KeyHolderField> = Vec::new();
    let mut contained_types: Vec<Type> = Vec::new();
    let mut variable_length = false;
    let mut i: usize = 0;
    assert(field_views(fields@) == Seq::<KeyHolderFieldView>::empty());
    assert(type_views(contained_types@) == Seq::<TypeView>::empty());
    while i < item.fields.len()
        invariant
            i <= item.fields@.len(),
            gathered_upto(item.fields@, i as nat) == Ok::<Gathered, DeriveError>(
                Gathered {
                    fields: field_views(fields@),
                    contained_types: type_views(contained_types@),
                    variable_length,
                },
            ),
        decreases item.fields@.len() - i,
    {
        let field = &item.fields[i];
        let ghost had_fields = fields@;
        let ghost had_types = contained_types@;
        if is_key(field) {
            match gather_field(field) {
                Err(e) => {
                    proof {
                        assert(gathered_upto(item.fields@, (i + 1) as nat) is Err);
                        lemma_gathered_upto_fails(item.fields@, (i + 1) as nat, item.fields@.len());
                    }
                    return Err(e);
                },
                Ok((taken, contained, varies)) => {
                    fields.push(taken);
                    match contained {
                        Some(ty) => {
                            contained_types.push(ty);
                            assert(type_views(contained_types@) == type_views(had_types).push(ty@));
                        },
                        None => {},
                    }
                    if !variable_length {
                        variable_length = varies;
                    }
                    assert(field_views(fields@) == field_views(had_fields).push(taken@));
                },
            }
        }
        i += 1;
    }
    Ok(KeyHolder { ident: holder_name, source: item.ident.clone(), fields, contained_types, variable_length })
}

/// What is to be declared for a structure beside its key holder: whether
/// the structure has a key at all, and the name of the key holder through
/// which the key is encoded and asked whether it varies in length.
pub struct KeyHashFunctions {
    pub topic_key_ident: String,
    pub topic_key_holder_ident: String,
}

/// Names what the key functions of a structure go through: the structure
/// and its key holder. The functions themselves work on the shape of the
/// structure: `key::key_cdr` encodes the key, `key::has_key` tells whether
/// there is one, and `key::force_md5_keyhash` whether its hash is a digest,
/// for a key that varies in length and for one that is longer than the hash.
pub fn create_keyhash_functions(item: &ItemStruct) -> (r: KeyHashFunctions)
    ensures
        r.topic_key_ident@ == item.ident@,
        r.topic_key_holder_ident@ == item.ident@ + holder_suffix(),
{
    KeyHashFunctions { topic_key_ident: item.ident.clone(), topic_key_holder_ident: key_holder_ident(&item.ident) }
}

/// Whether one of the answers is that a key varies.
pub open spec fn some_varies(answers: Seq<bool>) -> bool {
    exists|i: int| 0 <= i < answers.len() && answers[i]
}

/// Whether the key of a structure can vary in length, from whether one of
/// its own key fields can and whether the key of each structure among its
/// key fields can: one that varies, wherever it stands, is enough.
pub fn key_varies(own: bool, contained: &[bool]) -> (r: bool)
    ensures
        r == (own || some_varies(contained@)),
{
    if own {
        return true;
    }
    let mut i: usize = 0;
    while i < contained.len()
        invariant
            i <= contained@.len(),
            forall|j: int| 0 <= j < i ==> !contained@[j],
        decreases contained@.len() - i,
    {
        if contained[i] {
            return true;
        }
        i += 1;
    }
    false
}

} // verus!
