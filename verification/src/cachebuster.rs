//! Cache busting: local asset URLs get a `cachebust` query parameter holding
//! a digest of the asset's file.
//!
//! The document tree is handled in two steps around the file system:
//! `link_element_targets` lists what needs a new value (asset URLs, import
//! maps, style sheets); the caller reads the files they name; and
//! `fix_link_elements` makes each new value from what was read (digests,
//! rewritten style sheets) and puts it in place.
use vstd::prelude::*;
use base64::Engine;
use sha2::Digest;
use crate::dom::{
    attrs_model, copy_data, copy_name, copy_node, lemma_nodes_model, lemma_nodes_model_push, node_model,
    nodes_model, AttrModel, DomAttribute, DataModel, DomNode, DomNodeData, TreeModel,
};
use crate::css::{
    css_imports_defined, css_lines_defined, css_rewritten, css_urls, is_marker_line, law_kth_asset_line_gets_the_kth_digest,
    process_css_imports, text_lines, unquoted,
};
use crate::text::{chars_of, lemma_contains_push, push_char, str_eq, strings_model};

verus! {

// ---------------------------------------------------------------------------
// URLs
// ---------------------------------------------------------------------------

/// A C0 control or a space (U+0000 to U+0020).
pub open spec fn is_c0_control_or_space(c: char) -> bool {
    (c as u32) <= 0x20
}

/// An ASCII tab or newline.
pub open spec fn is_ascii_tab_or_newline(c: char) -> bool {
    c == '\t' || c == '\n' || c == '\r'
}

/// An ASCII letter.
pub open spec fn is_ascii_alpha(c: char) -> bool {
    ('a' <= c && c <= 'z') || ('A' <= c && c <= 'Z')
}

/// A character allowed in a URL scheme after its first letter.
pub open spec fn is_scheme_char(c: char) -> bool {
    is_ascii_alpha(c) || ('0' <= c && c <= '9') || c == '+' || c == '-' || c == '.'
}

/// `s` without its leading C0 controls and spaces.
pub open spec fn trim_c0_start(s: Seq<char>) -> Seq<char>
    decreases s.len(),
{
    if s.len() > 0 && is_c0_control_or_space(s[0]) {
        trim_c0_start(s.drop_first())
    } else {
        s
    }
}

/// `s` without its trailing C0 controls and spaces.
pub open spec fn trim_c0_end(s: Seq<char>) -> Seq<char>
    decreases s.len(),
{
    if s.len() > 0 && is_c0_control_or_space(s.last()) {
        trim_c0_end(s.drop_last())
    } else {
        s
    }
}

/// What a URL parser reads of `s`: leading and trailing C0 controls and
/// spaces removed, then every ASCII tab or newline removed.
pub open spec fn url_parser_input(s: Seq<char>) -> Seq<char> {
    trim_c0_end(trim_c0_start(s)).filter(|c: char| !is_ascii_tab_or_newline(c))
}

/// Whether `t` starts with a URL scheme: a letter, then letters, digits,
/// `+`, `-` or `.`, then a `:`.
pub open spec fn starts_with_scheme(t: Seq<char>) -> bool {
    &&& t.len() > 0
    &&& is_ascii_alpha(t[0])
    &&& exists|j: int|
        1 <= j < t.len() && t[j] == ':' && forall|k: int| 1 <= k < j ==> #[trigger] is_scheme_char(t[k])
}

/// Whether a URL is local: it has no scheme, so that it only means something relative to a base.
pub open spec fn url_is_local(url: Seq<char>) -> bool {
    !starts_with_scheme(url_parser_input(url))
}

/// Calls `url::Url::parse` and tells whether it fails with
/// `ParseError::RelativeUrlWithoutBase`. In the source of `url` (2.5.8) that
/// error is returned exactly when no scheme is found at the start of the
/// input, after C0 controls and spaces are trimmed from both ends and ASCII
/// tabs and newlines are skipped; this contract states that.
#[verifier::external_body]
fn url_parse_is_relative_without_base(input: &str) -> (r: bool)
    ensures
        r == url_is_local(input@),
{
    matches!(url::Url::parse(input), Err(url::ParseError::RelativeUrlWithoutBase))
}

/// Whether `url` is local, that is relative to the site (no scheme).
pub fn is_local_url(url: &str) -> (r: bool)
    ensures
        r == url_is_local(url@),
{
    url_parse_is_relative_without_base(url)
}

/// `url` with the query parameter `cachebust=<digest>` added.
pub open spec fn cachebusted(url: Seq<char>, digest: Seq<char>) -> Seq<char> {
    url + (if url.contains('?') {
        "&cachebust="@
    } else {
        "?cachebust="@
    }) + digest
}

/// Adds the query parameter `cachebust=<digest>` to `url`, after `&` when
/// `url` already has a `?`, after `?` otherwise.
pub fn process_url(url: &str, digest: &str) -> (r: String)
    ensures
        r@ == cachebusted(url@, digest@),
{
    let cs = chars_of(url);
    let mut has_query = false;
    let mut i: usize = 0;
    while i < cs.len()
        invariant
            i <= cs.len(),
            cs@ == url@,
            has_query == cs@.take(i as int).contains('?'),
        decreases cs.len() - i,
    {
        assert(cs@.take(i + 1) =~= cs@.take(i as int).push(cs@[i as int]));
        proof {
            lemma_contains_push(cs@.take(i as int), cs@[i as int], '?');
        }
        if cs[i] == '?' {
            has_query = true;
        }
        i = i + 1;
    }
    assert(cs@.take(cs.len() as int) =~= cs@);
    let mut r: String = url.to_owned();
    let sep: &str = if has_query {
        "&cachebust="
    } else {
        "?cachebust="
    };
    r.append(sep);
    r.append(digest);
    r
}

/// The path of the asset file of a URL, relative to the site's directory:
/// the URL without one leading `/`.
pub open spec fn asset_path(url: Seq<char>) -> Seq<char> {
    if url.len() > 0 && url[0] == '/' {
        url.drop_first()
    } else {
        url
    }
}

/// The path of the asset file of `url`, relative to the site's directory.
pub fn asset_file_path(url: &str) -> (r: String)
    ensures
        r@ == asset_path(url@),
{
    let cs = chars_of(url);
    let mut r: String = String::new();
    let mut i: usize = if cs.len() > 0 && cs[0] == '/' {
        1
    } else {
        0
    };
    let start: usize = i;
    assert(cs@.subrange(start as int, start as int) =~= Seq::<char>::empty());
    while i < cs.len()
        invariant
            start <= i <= cs.len(),
            cs@ == url@,
            r@ == cs@.subrange(start as int, i as int),
        decreases cs.len() - i,
    {
        assert(cs@.subrange(start as int, i + 1) =~= cs@.subrange(start as int, i as int).push(cs@[i as int]));
        push_char(&mut r, cs[i]);
        i = i + 1;
    }
    assert(asset_path(url@) =~= cs@.subrange(start as int, cs.len() as int));
    r
}

// ---------------------------------------------------------------------------
// Digests
// ---------------------------------------------------------------------------

/// The SHA-256 digest of `data`.
pub uninterp spec fn sha256(data: Seq<u8>) -> Seq<u8>;

/// The character of the URL-safe base64 alphabet (`A`-`Z`, `a`-`z`, `0`-`9`,
/// `-`, `_`) for a six-bit value.
pub open spec fn base64_url_safe_char(v: int) -> char {
    if v < 26 {
        (65 + v) as char
    } else if v < 52 {
        (97 + v - 26) as char
    } else if v < 62 {
        (48 + v - 52) as char
    } else if v == 62 {
        '-'
    } else {
        '_'
    }
}

/// The base64 encoding of `data` with the URL-safe alphabet and padding:
/// every group of three bytes gives four characters, six bits each, and a
/// last group of one or two bytes is padded with `=` to four characters.
pub open spec fn base64_url_safe(data: Seq<u8>) -> Seq<char>
    decreases data.len(),
{
    if data.len() == 0 {
        Seq::empty()
    } else if data.len() == 1 {
        let a = data[0] as int;
        seq![base64_url_safe_char(a / 4), base64_url_safe_char((a % 4) * 16), '=', '=']
    } else if data.len() == 2 {
        let a = data[0] as int;
        let b = data[1] as int;
        seq![
            base64_url_safe_char(a / 4),
            base64_url_safe_char((a % 4) * 16 + b / 16),
            base64_url_safe_char((b % 16) * 4),
            '=',
        ]
    } else {
        let a = data[0] as int;
        let b = data[1] as int;
        let c = data[2] as int;
        seq![
            base64_url_safe_char(a / 4),
            base64_url_safe_char((a % 4) * 16 + b / 16),
            base64_url_safe_char((b % 16) * 4 + c / 64),
            base64_url_safe_char(c % 64),
        ] + base64_url_safe(data.skip(3))
    }
}

/// The encoding has four characters for every started group of three bytes.
pub proof fn lemma_base64_url_safe_len(data: Seq<u8>)
    ensures
        base64_url_safe(data).len() == 4 * ((data.len() + 2) / 3),
    decreases data.len(),
{
    if data.len() >= 3 {
        lemma_base64_url_safe_len(data.skip(3));
    }
}

/// Calls `sha2::Sha256::digest`. Claimed: the result is the SHA-256 digest
/// of `data`, 32 bytes long.
#[verifier::external_body]
fn sha256_digest(data: &[u8]) -> (r: Vec<u8>)
    ensures
        r@ == sha256(data@),
        r@.len() == 32,
{
    sha2::Sha256::digest(data).to_vec()
}

/// Calls `base64::Engine::encode` on `base64::prelude::BASE64_URL_SAFE`.
/// Claimed: the result is the padded URL-safe base64 encoding of `data`, as
/// `base64_url_safe` states it. The call panics when the length of the
/// encoding does not fit in a `usize`, which `requires` rules out.
#[verifier::external_body]
fn base64_url_safe_encode(data: &[u8]) -> (r: String)
    requires
        4 * ((data@.len() + 2) / 3) <= usize::MAX,
    ensures
        r@ == base64_url_safe(data@),
{
    base64::prelude::BASE64_URL_SAFE.encode(data)
}

/// The digest that marks the contents of an asset: the URL-safe base64
/// encoding of its SHA-256 digest.
pub open spec fn asset_digest(contents: Seq<u8>) -> Seq<char> {
    base64_url_safe(sha256(contents))
}

/// The digest that marks the contents of an asset file.
pub fn content_digest(contents: &[u8]) -> (r: String)
    ensures
        r@ == asset_digest(contents@),
        r@.len() == 44,
{
    let d = sha256_digest(contents);
    proof {
        lemma_base64_url_safe_len(d@);
    }
    base64_url_safe_encode(d.as_slice())
}


// ---------------------------------------------------------------------------
// Documents
// ---------------------------------------------------------------------------

/// Model of what the cache buster does with a node.
pub enum RoleModel {
    /// Nothing, and nothing below it.
    Skip,
    /// Cache busts the value of the attribute at this index.
    AssetAttr(int),
    /// Rewrites the import map held by the first child, when it is text.
    ImportMapText,
    /// Rewrites the style sheet held by the first child, when it is text.
    StyleText,
    /// Looks into the template contents, if any, then into the children.
    Descend,
}

/// What the cache buster does with a node (see `RoleModel`).
pub enum Role {
    Skip,
    AssetAttr(usize),
    ImportMapText,
    StyleText,
    Descend,
}

impl View for Role {
    type V = RoleModel;

    open spec fn view(&self) -> RoleModel {
        match self {
            Role::Skip => RoleModel::Skip,
            Role::AssetAttr(h) => RoleModel::AssetAttr(*h as int),
            Role::ImportMapText => RoleModel::ImportMapText,
            Role::StyleText => RoleModel::StyleText,
            Role::Descend => RoleModel::Descend,
        }
    }
}

/// Index of the first attribute whose local name is `local`, or -1.
pub open spec fn first_attr_index(attrs: Seq<AttrModel>, local: Seq<char>) -> int
    decreases attrs.len(),
{
    if attrs.len() == 0 {
        -1
    } else {
        let j = first_attr_index(attrs.drop_last(), local);
        if j >= 0 {
            j
        } else if attrs.last().name.local == local {
            attrs.len() - 1
        } else {
            -1
        }
    }
}

/// Whether some attribute is `type="importmap"`.
pub open spec fn has_importmap_type(attrs: Seq<AttrModel>) -> bool {
    exists|i: int| 0 <= i < attrs.len() && #[trigger] attrs[i].name.local == "type"@ && attrs[i].value == "importmap"@
}

/// What the cache buster does with `t`: a `<link>` gets its first `href`
/// cache busted when local; a `<script type="importmap">` gets its import
/// map rewritten; another `<script>` gets its first `src` cache busted when
/// local; a `<style>` gets its style sheet rewritten; any other node is looked into.
pub open spec fn role(t: TreeModel) -> RoleModel {
    match t.data {
        DataModel::Element { name, attrs, .. } => {
            let href = first_attr_index(attrs, "href"@);
            let src = first_attr_index(attrs, "src"@);
            if name.local == "link"@ {
                if href >= 0 && url_is_local(attrs[href].value) {
                    RoleModel::AssetAttr(href)
                } else {
                    RoleModel::Skip
                }
            } else if name.local == "script"@ && has_importmap_type(attrs) {
                RoleModel::ImportMapText
            } else if name.local == "script"@ && src >= 0 && url_is_local(attrs[src].value) {
                RoleModel::AssetAttr(src)
            } else if name.local == "style"@ {
                RoleModel::StyleText
            } else {
                RoleModel::Descend
            }
        },
        _ => RoleModel::Descend,
    }
}

/// The text held by the first child of `t`, if it is a text node.
pub open spec fn first_text(t: TreeModel) -> Option<Seq<char>> {
    if t.children.len() > 0 {
        match t.children[0].data {
            DataModel::Text { contents } => Some(contents),
            _ => None,
        }
    } else {
        None
    }
}

/// Model of something that gets a new value.
pub enum TargetModel {
    Asset(Seq<char>),
    ImportMap(Seq<char>),
    Stylesheet(Seq<char>),
}

/// Something in a document that gets a new value: a local asset URL (its new
/// value is the URL cache busted), an import map or a style sheet (their new
/// value is the text rewritten).
pub enum CachebustTarget {
    Asset(String),
    ImportMap(String),
    Stylesheet(String),
}

impl View for CachebustTarget {
    type V = TargetModel;

    open spec fn view(&self) -> TargetModel {
        match self {
            CachebustTarget::Asset(s) => TargetModel::Asset(s@),
            CachebustTarget::ImportMap(s) => TargetModel::ImportMap(s@),
            CachebustTarget::Stylesheet(s) => TargetModel::Stylesheet(s@),
        }
    }
}

/// The models of a sequence of targets.
pub open spec fn targets_model(ts: Seq<CachebustTarget>) -> Seq<TargetModel> {
    ts.map_values(|t: CachebustTarget| t@)
}

/// The template contents of an element, if any.
pub open spec fn template_of(t: TreeModel) -> Option<TreeModel> {
    match t.data {
        DataModel::Element { template_contents: Some(c), .. } => Some(*c),
        _ => None,
    }
}

/// What gets a new value in `t`, in document order (template contents before children).
pub open spec fn link_targets(t: TreeModel) -> Seq<TargetModel>
    decreases t,
{
    match role(t) {
        RoleModel::Skip => Seq::empty(),
        RoleModel::AssetAttr(h) => seq![TargetModel::Asset(t.data->attrs[h].value)],
        RoleModel::ImportMapText => match first_text(t) {
            Some(c) => seq![TargetModel::ImportMap(c)],
            None => Seq::empty(),
        },
        RoleModel::StyleText => match first_text(t) {
            Some(c) => seq![TargetModel::Stylesheet(c)],
            None => Seq::empty(),
        },
        RoleModel::Descend => {
            let inner = match t.data {
                DataModel::Element { template_contents: Some(c), .. } => link_targets(*c),
                _ => Seq::empty(),
            };
            inner + link_targets_seq(t.children)
        },
    }
}

/// What gets a new value in a sequence of trees.
pub open spec fn link_targets_seq(cs: Seq<TreeModel>) -> Seq<TargetModel>
    decreases cs,
{
    if cs.len() == 0 {
        Seq::empty()
    } else {
        link_targets_seq(cs.drop_last()) + link_targets(cs.last())
    }
}

/// Whether cache busting is defined on `t`: every import map script and
/// every style element reached has a child (an empty one is an error).
pub open spec fn link_elements_defined(t: TreeModel) -> bool
    decreases t,
{
    match role(t) {
        RoleModel::ImportMapText => t.children.len() > 0,
        RoleModel::StyleText => t.children.len() > 0,
        RoleModel::Descend => {
            &&& match t.data {
                DataModel::Element { template_contents: Some(c), .. } => link_elements_defined(*c),
                _ => true,
            }
            &&& link_elements_defined_seq(t.children)
        },
        _ => true,
    }
}

/// `link_elements_defined` on each tree of a sequence.
pub open spec fn link_elements_defined_seq(cs: Seq<TreeModel>) -> bool
    decreases cs,
{
    cs.len() == 0 || (link_elements_defined_seq(cs.drop_last()) && link_elements_defined(cs.last()))
}

/// `t` with the value of attribute `h` set to `v`.
pub open spec fn with_attr_value(t: TreeModel, h: int, v: Seq<char>) -> TreeModel {
    match t.data {
        DataModel::Element { name, attrs, template_contents, mathml_annotation_xml_integration_point } => TreeModel {
            data: DataModel::Element {
                name,
                attrs: attrs.update(h, AttrModel { name: attrs[h].name, value: v }),
                template_contents,
                mathml_annotation_xml_integration_point,
            },
            children: t.children,
        },
        _ => t,
    }
}

/// `t` with the text of its first child set to `v`, when that child is text.
pub open spec fn with_first_text(t: TreeModel, v: Seq<char>) -> TreeModel {
    if first_text(t) is Some {
        TreeModel {
            data: t.data,
            children: t.children.update(
                0,
                TreeModel { data: DataModel::Text { contents: v }, children: t.children[0].children },
            ),
        }
    } else {
        t
    }
}

/// `t` where the targets of `link_targets(t)` get, in order, the values of `values`.
pub open spec fn relinked(t: TreeModel, values: Seq<Seq<char>>) -> TreeModel
    decreases t,
{
    match role(t) {
        RoleModel::Skip => t,
        RoleModel::AssetAttr(h) => with_attr_value(t, h, values[0]),
        RoleModel::ImportMapText => with_first_text(t, values[0]),
        RoleModel::StyleText => with_first_text(t, values[0]),
        RoleModel::Descend => match t.data {
            DataModel::Element { name, attrs, template_contents: Some(c), mathml_annotation_xml_integration_point } => {
                let n = link_targets(*c).len();
                TreeModel {
                    data: DataModel::Element {
                        name,
                        attrs,
                        template_contents: Some(Box::new(relinked(*c, values.take(n as int)))),
                        mathml_annotation_xml_integration_point,
                    },
                    children: relinked_seq(t.children, values.skip(n as int)),
                }
            },
            _ => TreeModel { data: t.data, children: relinked_seq(t.children, values) },
        },
    }
}

/// `relinked` on a sequence of trees, each taking its share of `values`.
pub open spec fn relinked_seq(cs: Seq<TreeModel>, values: Seq<Seq<char>>) -> Seq<TreeModel>
    decreases cs,
{
    if cs.len() == 0 {
        Seq::empty()
    } else {
        let n = link_targets_seq(cs.drop_last()).len();
        relinked_seq(cs.drop_last(), values.take(n as int)).push(relinked(cs.last(), values.skip(n as int)))
    }
}


proof fn lemma_first_attr_index_none(attrs: Seq<AttrModel>, local: Seq<char>)
    requires
        forall|k: int| 0 <= k < attrs.len() ==> #[trigger] attrs[k].name.local != local,
    ensures
        first_attr_index(attrs, local) == -1,
    decreases attrs.len(),
{
    if attrs.len() > 0 {
        lemma_first_attr_index_none(attrs.drop_last(), local);
    }
}

proof fn lemma_first_attr_index_found(attrs: Seq<AttrModel>, local: Seq<char>, i: int)
    requires
        0 <= i < attrs.len(),
        attrs[i].name.local == local,
        forall|k: int| 0 <= k < i ==> #[trigger] attrs[k].name.local != local,
    ensures
        first_attr_index(attrs, local) == i,
    decreases attrs.len(),
{
    if i < attrs.len() - 1 {
        lemma_first_attr_index_found(attrs.drop_last(), local, i);
    } else {
        lemma_first_attr_index_none(attrs.drop_last(), local);
    }
}

proof fn lemma_first_attr_index_range(attrs: Seq<AttrModel>, local: Seq<char>)
    ensures
        -1 <= first_attr_index(attrs, local) < attrs.len(),
    decreases attrs.len(),
{
    if attrs.len() > 0 {
        lemma_first_attr_index_range(attrs.drop_last(), local);
    }
}

/// An attribute index chosen by `role` is an index of the element's attributes.
proof fn lemma_role_attr(t: TreeModel)
    ensures
        role(t) matches RoleModel::AssetAttr(h) ==> (t.data is Element && 0 <= h < t.data->attrs.len()),
{
    match t.data {
        DataModel::Element { attrs, .. } => {
            lemma_first_attr_index_range(attrs, "href"@);
            lemma_first_attr_index_range(attrs, "src"@);
        },
        _ => {},
    }
}

/// The index of the first attribute whose local name is `local`.
fn attr_index(attrs: &Vec<DomAttribute>, local: &str) -> (r: Option<usize>)
    ensures
        match r {
            Some(i) => i < attrs@.len() && i == first_attr_index(attrs_model(attrs@), local@),
            None => first_attr_index(attrs_model(attrs@), local@) == -1,
        },
{
    let ghost am = attrs_model(attrs@);
    let mut i: usize = 0;
    while i < attrs.len()
        invariant
            i <= attrs.len(),
            am == attrs_model(attrs@),
            forall|k: int| 0 <= k < i ==> #[trigger] am[k].name.local != local@,
        decreases attrs.len() - i,
    {
        if str_eq(&attrs[i].name.local, local) {
            proof {
                lemma_first_attr_index_found(am, local@, i as int);
            }
            return Some(i);
        }
        i = i + 1;
    }
    proof {
        lemma_first_attr_index_none(am, local@);
    }
    None
}

/// Whether some attribute is `type="importmap"`.
fn importmap_type(attrs: &Vec<DomAttribute>) -> (r: bool)
    ensures
        r == has_importmap_type(attrs_model(attrs@)),
{
    let ghost am = attrs_model(attrs@);
    let mut i: usize = 0;
    while i < attrs.len()
        invariant
            i <= attrs.len(),
            am == attrs_model(attrs@),
            forall|k: int| 0 <= k < i ==> !(#[trigger] am[k].name.local == "type"@ && am[k].value == "importmap"@),
        decreases attrs.len() - i,
    {
        if str_eq(&attrs[i].name.local, "type") && str_eq(&attrs[i].value, "importmap") {
            assert(am[i as int].name.local == "type"@);
            return true;
        }
        i = i + 1;
    }
    false
}

/// What the cache buster does with `n` (see `role`).
fn role_of(n: &DomNode) -> (r: Role)
    ensures
        r@ == role(n@),
{
    match &n.data {
        DomNodeData::Element { name, attrs, .. } => {
            let ghost am = attrs_model(attrs@);
            let href = attr_index(attrs, "href");
            let src = attr_index(attrs, "src");
            if str_eq(&name.local, "link") {
                match href {
                    Some(h) => {
                        if is_local_url(attrs[h].value.as_str()) {
                            Role::AssetAttr(h)
                        } else {
                            Role::Skip
                        }
                    },
                    None => Role::Skip,
                }
            } else if str_eq(&name.local, "script") && importmap_type(attrs) {
                Role::ImportMapText
            } else if str_eq(&name.local, "script") && src.is_some() && is_local_url(
                attrs[src.unwrap()].value.as_str(),
            ) {
                Role::AssetAttr(src.unwrap())
            } else if str_eq(&name.local, "style") {
                Role::StyleText
            } else {
                Role::Descend
            }
        },
        _ => Role::Descend,
    }
}

/// The text of the first child of `n`, if it is a text node.
fn first_child_text(n: &DomNode) -> (r: Option<&String>)
    ensures
        match r {
            Some(s) => first_text(n@) == Some(s@),
            None => first_text(n@) is None,
        },
{
    proof {
        lemma_nodes_model(n.children@);
    }
    if n.children.len() == 0 {
        return None;
    }
    match &n.children[0].data {
        DomNodeData::Text { contents } => Some(contents),
        _ => None,
    }
}

/// Appends to `targets` what gets a new value in `node`, in document order.
pub fn link_element_targets(node: &DomNode, targets: &mut Vec<CachebustTarget>)
    ensures
        targets_model(final(targets)@) == targets_model(old(targets)@) + link_targets(node@),
    decreases node,
{
    let ghost t0 = targets_model(targets@);
    match role_of(node) {
        Role::Skip => {
            assert(targets_model(targets@) =~= t0 + link_targets(node@));
        },
        Role::AssetAttr(h) => {
            proof {
                lemma_role_attr(node@);
            }
            let value = match &node.data {
                DomNodeData::Element { attrs, .. } => {
                    assert(attrs_model(attrs@)[h as int] == attrs@[h as int]@);
                    attrs[h].value.clone()
                },
                _ => String::new(),
            };
            targets.push(CachebustTarget::Asset(value));
            assert(targets_model(targets@) =~= t0 + link_targets(node@));
        },
        Role::ImportMapText => {
            match first_child_text(node) {
                Some(c) => {
                    targets.push(CachebustTarget::ImportMap(c.clone()));
                },
                None => {},
            }
            assert(targets_model(targets@) =~= t0 + link_targets(node@));
        },
        Role::StyleText => {
            match first_child_text(node) {
                Some(c) => {
                    targets.push(CachebustTarget::Stylesheet(c.clone()));
                },
                None => {},
            }
            assert(targets_model(targets@) =~= t0 + link_targets(node@));
        },
        Role::Descend => {
            let ghost inner = match node@.data {
                DataModel::Element { template_contents: Some(c), .. } => link_targets(*c),
                _ => Seq::<TargetModel>::empty(),
            };
            match &node.data {
                DomNodeData::Element { template_contents: Some(c), .. } => {
                    link_element_targets(c, targets);
                },
                _ => {},
            }
            assert(targets_model(targets@) == t0 + inner);
            let ghost cm = nodes_model(node.children@);
            proof {
                lemma_nodes_model(node.children@);
            }
            let mut i: usize = 0;
            assert(cm.take(0) =~= Seq::<TreeModel>::empty());
            assert(targets_model(targets@) =~= t0 + inner + link_targets_seq(cm.take(0)));
            while i < node.children.len()
                invariant
                    i <= node.children.len(),
                    cm == nodes_model(node.children@),
                    cm.len() == node.children@.len(),
                    forall|j: int| 0 <= j < node.children@.len() ==> #[trigger] cm[j] == node_model(node.children@[j]),
                    targets_model(targets@) == t0 + inner + link_targets_seq(cm.take(i as int)),
                decreases node.children.len() - i,
            {
                let ghost before = targets_model(targets@);
                link_element_targets(&node.children[i], targets);
                proof {
                    assert(cm.take(i + 1).drop_last() =~= cm.take(i as int));
                    assert(cm.take(i + 1).last() == cm[i as int]);
                    assert(t0 + inner + link_targets_seq(cm.take(i + 1)) =~= before + link_targets(cm[i as int]));
                }
                i = i + 1;
            }
            assert(cm.take(node.children.len() as int) =~= cm);
            assert(targets_model(targets@) =~= t0 + link_targets(node@));
        },
    }
}

/// Whether cache busting is defined on `node` (see `link_elements_defined`).
pub fn can_fix_link_elements(node: &DomNode) -> (r: bool)
    ensures
        r == link_elements_defined(node@),
    decreases node,
{
    match role_of(node) {
        Role::ImportMapText => node.children.len() > 0,
        Role::StyleText => node.children.len() > 0,
        Role::Descend => {
            let inner = match &node.data {
                DomNodeData::Element { template_contents: Some(c), .. } => can_fix_link_elements(c),
                _ => true,
            };
            if !inner {
                return false;
            }
            let ghost cm = nodes_model(node.children@);
            proof {
                lemma_nodes_model(node.children@);
            }
            let mut i: usize = 0;
            assert(cm.take(0) =~= Seq::<TreeModel>::empty());
            while i < node.children.len()
                invariant
                    i <= node.children.len(),
                    cm == nodes_model(node.children@),
                    cm.len() == node.children@.len(),
                    forall|j: int| 0 <= j < node.children@.len() ==> #[trigger] cm[j] == node_model(node.children@[j]),
                    link_elements_defined_seq(cm.take(i as int)),
                    role(node@) is Descend,
                    node@.children == cm,
                decreases node.children.len() - i,
            {
                let ok = can_fix_link_elements(&node.children[i]);
                proof {
                    assert(cm.take(i + 1).drop_last() =~= cm.take(i as int));
                    assert(cm.take(i + 1).last() == cm[i as int]);
                }
                if !ok {
                    proof {
                        if link_elements_defined_seq(cm) {
                            lemma_defined_seq_prefix(cm, i + 1);
                        }
                    }
                    return false;
                }
                i = i + 1;
            }
            assert(cm.take(node.children.len() as int) =~= cm);
            true
        },
        _ => true,
    }
}

proof fn lemma_defined_seq_prefix(cs: Seq<TreeModel>, k: int)
    requires
        0 <= k <= cs.len(),
        link_elements_defined_seq(cs),
    ensures
        link_elements_defined_seq(cs.take(k)),
    decreases cs.len() - k,
{
    if k < cs.len() {
        assert(cs.take(k + 1).drop_last() =~= cs.take(k));
        if k + 1 == cs.len() {
            assert(cs.take(k + 1) =~= cs);
        } else {
            lemma_defined_seq_prefix(cs, k + 1);
        }
    } else {
        assert(cs.take(k) =~= cs);
    }
}


/// A copy of `attrs` where attribute `h` has the value `v`.
fn attrs_with_value(attrs: &Vec<DomAttribute>, h: usize, v: &String) -> (r: Vec<DomAttribute>)
    requires
        h < attrs@.len(),
    ensures
        attrs_model(r@) == attrs_model(attrs@).update(
            h as int,
            AttrModel { name: attrs_model(attrs@)[h as int].name, value: v@ },
        ),
{
    let ghost am = attrs_model(attrs@);
    let ghost want = am.update(h as int, AttrModel { name: am[h as int].name, value: v@ });
    let mut r: Vec<DomAttribute> = Vec::new();
    let mut j: usize = 0;
    while j < attrs.len()
        invariant
            j <= attrs.len(),
            h < attrs@.len(),
            am == attrs_model(attrs@),
            want == am.update(h as int, AttrModel { name: am[h as int].name, value: v@ }),
            r@.len() == j,
            forall|k: int| 0 <= k < j ==> #[trigger] r@[k]@ == want[k],
        decreases attrs.len() - j,
    {
        let value = if j == h {
            v.clone()
        } else {
            attrs[j].value.clone()
        };
        r.push(DomAttribute { name: copy_name(&attrs[j].name), value });
        j = j + 1;
    }
    assert(attrs_model(r@) =~= want);
    r
}

/// A copy of `cs` where the first node, a text node, holds `v`.
fn children_with_first_text(cs: &Vec<DomNode>, v: &String) -> (r: Vec<DomNode>)
    requires
        cs@.len() > 0,
    ensures
        nodes_model(r@) == nodes_model(cs@).update(
            0,
            TreeModel { data: DataModel::Text { contents: v@ }, children: nodes_model(cs@)[0].children },
        ),
{
    proof {
        lemma_nodes_model(cs@);
    }
    let ghost cm = nodes_model(cs@);
    let ghost want = cm.update(0, TreeModel { data: DataModel::Text { contents: v@ }, children: cm[0].children });
    let first = DomNode { data: DomNodeData::Text { contents: v.clone() }, children: crate::dom::copy_nodes(&cs[0].children) };
    let mut r: Vec<DomNode> = Vec::new();
    r.push(first);
    proof {
        lemma_nodes_model(r@);
    }
    let mut j: usize = 1;
    while j < cs.len()
        invariant
            1 <= j <= cs.len(),
            cm == nodes_model(cs@),
            cm.len() == cs@.len(),
            forall|k: int| 0 <= k < cs@.len() ==> #[trigger] cm[k] == node_model(cs@[k]),
            want == cm.update(0, TreeModel { data: DataModel::Text { contents: v@ }, children: cm[0].children }),
            nodes_model(r@) == want.take(j as int),
        decreases cs.len() - j,
    {
        let c = copy_node(&cs[j]);
        proof {
            lemma_nodes_model_push(r@, c);
            assert(want.take(j + 1) =~= want.take(j as int).push(want[j as int]));
        }
        r.push(c);
        j = j + 1;
    }
    assert(want.take(cs.len() as int) =~= want);
    r
}

/// `node` relinked with `values[start..]`; also returns where its share of `values` ends.
fn relink(node: &DomNode, values: &Vec<String>, start: usize) -> (r: (DomNode, usize))
    requires
        start + link_targets(node@).len() <= values.len(),
    ensures
        r.1 == start + link_targets(node@).len(),
        r.0@ == relinked(node@, strings_model(values@).subrange(start as int, r.1 as int)),
    decreases node,
{
    let ghost vm = strings_model(values@);
    match role_of(node) {
        Role::Skip => (copy_node(node), start),
        Role::AssetAttr(h) => {
            proof {
                lemma_role_attr(node@);
            }
            match &node.data {
                DomNodeData::Element { name, attrs, template_contents, mathml_annotation_xml_integration_point } => {
                    let new_attrs = attrs_with_value(attrs, h, &values[start]);
                    let tc = match template_contents {
                        Some(c) => Some(Box::new(copy_node(c))),
                        None => None,
                    };
                    let data = DomNodeData::Element {
                        name: copy_name(name),
                        attrs: new_attrs,
                        template_contents: tc,
                        mathml_annotation_xml_integration_point: *mathml_annotation_xml_integration_point,
                    };
                    let r = DomNode { data, children: crate::dom::copy_nodes(&node.children) };
                    assert(link_targets(node@).len() == 1);
                    assert(vm.subrange(start as int, start + 1)[0] == values@[start as int]@);
                    assert(r@ =~= relinked(node@, vm.subrange(start as int, start + 1)));
                    (r, start + 1)
                },
                _ => (copy_node(node), start),
            }
        },
        Role::ImportMapText | Role::StyleText => {
            match first_child_text(node) {
                Some(_) => {
                    let kids = children_with_first_text(&node.children, &values[start]);
                    let r = DomNode { data: copy_data(&node.data), children: kids };
                    assert(link_targets(node@).len() == 1);
                    assert(vm.subrange(start as int, start + 1)[0] == values@[start as int]@);
                    assert(r@ =~= relinked(node@, vm.subrange(start as int, start + 1)));
                    (r, start + 1)
                },
                None => (copy_node(node), start),
            }
        },
        Role::Descend => {
            let ghost inner = match node@.data {
                DataModel::Element { template_contents: Some(c), .. } => link_targets(*c),
                _ => Seq::<TargetModel>::empty(),
            };
            let ghost end = start + link_targets(node@).len();
            let mut pos: usize = start;
            let mut new_tc: Option<Box<DomNode>> = None;
            match &node.data {
                DomNodeData::Element { template_contents: Some(c), .. } => {
                    let (c2, p) = relink(c, values, start);
                    new_tc = Some(Box::new(c2));
                    pos = p;
                },
                _ => {},
            }
            let ghost p0 = pos;
            assert(p0 == start + inner.len());
            let ghost cm = nodes_model(node.children@);
            proof {
                lemma_nodes_model(node.children@);
            }
            let mut kids: Vec<DomNode> = Vec::new();
            let mut i: usize = 0;
            assert(cm.take(0) =~= Seq::<TreeModel>::empty());
            assert(nodes_model(kids@) =~= relinked_seq(cm.take(0), vm.subrange(p0 as int, p0 as int)));
            while i < node.children.len()
                invariant
                    i <= node.children.len(),
                    cm == nodes_model(node.children@),
                    cm.len() == node.children@.len(),
                    forall|j: int| 0 <= j < node.children@.len() ==> #[trigger] cm[j] == node_model(node.children@[j]),
                    vm == strings_model(values@),
                    p0 <= pos,
                    pos == p0 + link_targets_seq(cm.take(i as int)).len(),
                    p0 + link_targets_seq(cm).len() <= values.len(),
                    nodes_model(kids@) == relinked_seq(cm.take(i as int), vm.subrange(p0 as int, pos as int)),
                decreases node.children.len() - i,
            {
                proof {
                    assert(cm.take(i + 1).drop_last() =~= cm.take(i as int));
                    assert(cm.take(i + 1).last() == cm[i as int]);
                    lemma_targets_seq_prefix(cm, i + 1);
                }
                let ghost before = nodes_model(kids@);
                let (c2, p) = relink(&node.children[i], values, pos);
                proof {
                    let vs = vm.subrange(p0 as int, p as int);
                    assert(vs.take(pos - p0) =~= vm.subrange(p0 as int, pos as int));
                    assert(vs.skip(pos - p0) =~= vm.subrange(pos as int, p as int));
                    lemma_nodes_model_push(kids@, c2);
                }
                kids.push(c2);
                pos = p;
                i = i + 1;
            }
            assert(cm.take(node.children.len() as int) =~= cm);
            let data = match &node.data {
                DomNodeData::Element { name, attrs, template_contents: Some(_), mathml_annotation_xml_integration_point } => {
                    DomNodeData::Element {
                        name: copy_name(name),
                        attrs: crate::dom::copy_attrs(attrs),
                        template_contents: new_tc,
                        mathml_annotation_xml_integration_point: *mathml_annotation_xml_integration_point,
                    }
                },
                _ => copy_data(&node.data),
            };
            let r = DomNode { data, children: kids };
            proof {
                let vs = vm.subrange(start as int, pos as int);
                assert(vs.take(inner.len() as int) =~= vm.subrange(start as int, p0 as int));
                assert(vs.skip(inner.len() as int) =~= vm.subrange(p0 as int, pos as int));
                assert(r@ =~= relinked(node@, vs));
            }
            (r, pos)
        },
    }
}

proof fn lemma_targets_seq_prefix(cs: Seq<TreeModel>, k: int)
    requires
        0 <= k <= cs.len(),
    ensures
        link_targets_seq(cs.take(k)).len() <= link_targets_seq(cs).len(),
    decreases cs.len() - k,
{
    if k < cs.len() {
        assert(cs.take(k + 1).drop_last() =~= cs.take(k));
        lemma_targets_seq_prefix(cs, k + 1);
    } else {
        assert(cs.take(k) =~= cs);
    }
}

/// Model of what the new value of a target is made from.
pub enum InputModel {
    /// The contents of the asset file.
    Asset(Seq<u8>),
    /// The entries (name, URL) of the import map's `imports`, and the
    /// contents of the asset file of each URL, in the same order.
    ImportMap { entries: Seq<(Seq<char>, Seq<char>)>, contents: Seq<Seq<u8>> },
    /// The contents of the asset file of each URL of the style sheet, in order.
    Stylesheet(Seq<Seq<u8>>),
}

/// What the new value of a target is made from, as read from the site: for
/// an asset URL, the contents of its file (`asset_file_path` of the URL,
/// under the site's directory); for a style sheet, the contents of the file
/// of each of its asset URLs (`css_asset_urls`), in order; for an import map,
/// the entries of its `imports` object, as parsed from its text, and the
/// contents of the file of each entry's URL.
pub enum TargetInput {
    Asset(Vec<u8>),
    ImportMap { entries: Vec<(String, String)>, contents: Vec<Vec<u8>> },
    Stylesheet(Vec<Vec<u8>>),
}

/// The models of a sequence of (name, value) pairs.
pub open spec fn pairs_model(ps: Seq<(String, String)>) -> Seq<(Seq<char>, Seq<char>)> {
    ps.map_values(|p: (String, String)| (p.0@, p.1@))
}

/// The contents of a sequence of files.
pub open spec fn files_model(fs: Seq<Vec<u8>>) -> Seq<Seq<u8>> {
    fs.map_values(|f: Vec<u8>| f@)
}

impl View for TargetInput {
    type V = InputModel;

    open spec fn view(&self) -> InputModel {
        match self {
            TargetInput::Asset(c) => InputModel::Asset(c@),
            TargetInput::ImportMap { entries, contents } => InputModel::ImportMap {
                entries: pairs_model(entries@),
                contents: files_model(contents@),
            },
            TargetInput::Stylesheet(fs) => InputModel::Stylesheet(files_model(fs@)),
        }
    }
}

/// The models of a sequence of inputs.
pub open spec fn inputs_model(is: Seq<TargetInput>) -> Seq<InputModel> {
    is.map_values(|i: TargetInput| i@)
}

/// Whether `i` is an input for target `t`: of the same kind, and for a style
/// sheet whose asset markers are well placed, one file for each of its URLs.
pub open spec fn input_fits(t: TargetModel, i: InputModel) -> bool {
    match t {
        TargetModel::Asset(_) => i is Asset,
        TargetModel::ImportMap(_) => match i {
            InputModel::ImportMap { entries, contents } => entries.len() == contents.len(),
            _ => false,
        },
        TargetModel::Stylesheet(css) => match i {
            InputModel::Stylesheet(files) => css_imports_defined(css) && files.len() == css_urls(
                text_lines(css),
            ).len(),
            _ => false,
        },
    }
}

/// Whether `is` holds, in order, an input for each target of `ts`.
pub open spec fn inputs_fit(ts: Seq<TargetModel>, is: Seq<InputModel>) -> bool {
    &&& ts.len() == is.len()
    &&& forall|k: int| 0 <= k < ts.len() ==> #[trigger] input_fits(ts[k], is[k])
}

/// The new value of target `t` made from `i`: an asset URL cache busted with
/// the digest of its file; a style sheet rewritten with the digests of the
/// files of its asset URLs; an import map written anew, as JSON, with the URL
/// of every entry of its `imports` cache busted with the digest of its file.
pub open spec fn target_value(t: TargetModel, i: InputModel) -> Seq<char> {
    match i {
        InputModel::Asset(contents) => cachebusted(current_value(t), asset_digest(contents)),
        InputModel::ImportMap { entries, contents } => json_object_of_strings(
            "imports"@,
            cachebusted_entries(entries, contents),
        ),
        InputModel::Stylesheet(files) => css_rewritten(
            text_lines(current_value(t)),
            files.map_values(|f: Seq<u8>| asset_digest(f)),
        ),
    }
}

/// The new values of the targets `ts`, made from the inputs `is`.
pub open spec fn target_values(ts: Seq<TargetModel>, is: Seq<InputModel>) -> Seq<Seq<char>> {
    Seq::new(ts.len(), |k: int| target_value(ts[k], is[k]))
}

/// The digests of the contents of a sequence of files.
fn file_digests(files: &Vec<Vec<u8>>) -> (r: Vec<String>)
    ensures
        r@.len() == files@.len(),
        strings_model(r@) == files_model(files@).map_values(|f: Seq<u8>| asset_digest(f)),
{
    let ghost want = files_model(files@).map_values(|f: Seq<u8>| asset_digest(f));
    let mut r: Vec<String> = Vec::new();
    let mut k: usize = 0;
    while k < files.len()
        invariant
            k <= files.len(),
            want == files_model(files@).map_values(|f: Seq<u8>| asset_digest(f)),
            r@.len() == k,
            forall|j: int| 0 <= j < k ==> #[trigger] r@[j]@ == want[j],
        decreases files.len() - k,
    {
        let d = content_digest(files[k].as_slice());
        r.push(d);
        k = k + 1;
    }
    assert(strings_model(r@) =~= want);
    r
}

/// The new value of a target, made from its input (see `target_value`).
pub fn target_new_value(t: &CachebustTarget, input: &TargetInput) -> (r: String)
    requires
        input_fits(t@, input@),
    ensures
        r@ == target_value(t@, input@),
{
    match input {
        TargetInput::Asset(contents) => {
            let url = match t {
                CachebustTarget::Asset(u) => u,
                CachebustTarget::ImportMap(u) => u,
                CachebustTarget::Stylesheet(u) => u,
            };
            let d = content_digest(contents.as_slice());
            process_url(url.as_str(), d.as_str())
        },
        TargetInput::ImportMap { entries, contents } => {
            let new_entries = cachebust_import_map_entries(entries, contents);
            json_pretty_object("imports", &new_entries)
        },
        TargetInput::Stylesheet(files) => {
            let css = match t {
                CachebustTarget::Asset(u) => u,
                CachebustTarget::ImportMap(u) => u,
                CachebustTarget::Stylesheet(u) => u,
            };
            let digests = file_digests(files);
            process_css_imports(css.as_str(), &digests)
        },
    }
}

/// The entries of an import map with every URL cache busted with the digest
/// of the file at the same index of `contents`.
pub open spec fn cachebusted_entries(entries: Seq<(Seq<char>, Seq<char>)>, contents: Seq<Seq<u8>>) -> Seq<(Seq<char>, Seq<char>)> {
    Seq::new(entries.len(), |k: int| (entries[k].0, cachebusted(entries[k].1, asset_digest(contents[k]))))
}

/// Cache busts the URLs of an import map's entries: each URL gets the digest
/// of the contents of its file, at the same index of `contents`.
pub fn cachebust_import_map_entries(entries: &Vec<(String, String)>, contents: &Vec<Vec<u8>>) -> (r: Vec<(String, String)>)
    requires
        entries@.len() == contents@.len(),
    ensures
        pairs_model(r@) == cachebusted_entries(pairs_model(entries@), files_model(contents@)),
{
    let ghost want = cachebusted_entries(pairs_model(entries@), files_model(contents@));
    let mut r: Vec<(String, String)> = Vec::new();
    let mut k: usize = 0;
    while k < entries.len()
        invariant
            k <= entries.len(),
            entries@.len() == contents@.len(),
            want == cachebusted_entries(pairs_model(entries@), files_model(contents@)),
            r@.len() == k,
            forall|j: int| 0 <= j < k ==> (#[trigger] r@[j]).0@ == want[j].0 && r@[j].1@ == want[j].1,
        decreases entries.len() - k,
    {
        let d = content_digest(contents[k].as_slice());
        let url = process_url(entries[k].1.as_str(), d.as_str());
        r.push((entries[k].0.clone(), url));
        k = k + 1;
    }
    assert(pairs_model(r@) =~= want);
    r
}

/// The JSON text that `serde_json::to_string_pretty` writes for an object
/// with one member, `name`, whose value is an object of the string members
/// `entries`, written in the order of their names.
pub uninterp spec fn json_object_of_strings(name: Seq<char>, entries: Seq<(Seq<char>, Seq<char>)>) -> Seq<char>;

/// Calls `serde_json::to_string_pretty` on a `BTreeMap` holding one entry,
/// `name`, whose value is the `BTreeMap` of `entries`. Claimed: the result is
/// named by `json_object_of_strings`, a function of `name` and `entries` alone
/// (a `BTreeMap` orders its keys; of two entries with one name, the later
/// stays). Serializing maps of strings into a `Vec` cannot fail in serde_json,
/// so the `unwrap` never panics.
#[verifier::external_body]
fn json_pretty_object(name: &str, entries: &Vec<(String, String)>) -> (r: String)
    ensures
        r@ == json_object_of_strings(name@, pairs_model(entries@)),
{
    let members: std::collections::BTreeMap<&String, &String> = entries.iter().map(|(k, v)| (k, v)).collect();
    let object: std::collections::BTreeMap<&str, _> = std::collections::BTreeMap::from([(name, members)]);
    serde_json::to_string_pretty(&object).unwrap()
}

/// Cache busts a document: the targets listed by `link_element_targets` get,
/// in order, their new values made from `inputs` (see `target_value`): a local
/// asset URL gets the `cachebust` parameter with the digest of its file, a
/// style sheet has its asset lines rewritten, an import map is written anew
/// with the URL of each of its entries cache busted.
pub fn fix_link_elements(node: &mut DomNode, inputs: &Vec<TargetInput>)
    requires
        link_elements_defined(old(node)@),
        inputs_fit(link_targets(old(node)@), inputs_model(inputs@)),
    ensures
        final(node)@ == relinked(old(node)@, target_values(link_targets(old(node)@), inputs_model(inputs@))),
{
    let ghost ts = link_targets(node@);
    let ghost im = inputs_model(inputs@);
    let mut targets: Vec<CachebustTarget> = Vec::new();
    link_element_targets(node, &mut targets);
    assert(targets_model(targets@) =~= ts);
    let ghost want = target_values(ts, im);
    let mut values: Vec<String> = Vec::new();
    let mut k: usize = 0;
    while k < targets.len()
        invariant
            k <= targets.len(),
            targets_model(targets@) == ts,
            targets@.len() == ts.len(),
            im == inputs_model(inputs@),
            inputs_fit(ts, im),
            want == target_values(ts, im),
            values@.len() == k,
            forall|j: int| 0 <= j < k ==> #[trigger] values@[j]@ == want[j],
        decreases targets.len() - k,
    {
        assert(ts[k as int] == targets@[k as int]@);
        assert(im[k as int] == inputs@[k as int]@);
        assert(input_fits(ts[k as int], im[k as int]));
        let v = target_new_value(&targets[k], &inputs[k]);
        values.push(v);
        k = k + 1;
    }
    assert(strings_model(values@) =~= want);
    let (r, end) = relink(node, &values, 0);
    assert(strings_model(values@).subrange(0, end as int) =~= strings_model(values@));
    *node = r;
}


// ---------------------------------------------------------------------------
// Laws
// ---------------------------------------------------------------------------

/// The value a target holds now.
pub open spec fn current_value(t: TargetModel) -> Seq<char> {
    match t {
        TargetModel::Asset(s) => s,
        TargetModel::ImportMap(s) => s,
        TargetModel::Stylesheet(s) => s,
    }
}

/// The values the targets hold now.
pub open spec fn current_values(ts: Seq<TargetModel>) -> Seq<Seq<char>> {
    ts.map_values(|t: TargetModel| current_value(t))
}

proof fn lemma_relinked_identity(t: TreeModel)
    ensures
        relinked(t, current_values(link_targets(t))) == t,
    decreases t,
{
    lemma_role_attr(t);
    match role(t) {
        RoleModel::AssetAttr(h) => {
            let attrs = t.data->attrs;
            assert(attrs.update(h, AttrModel { name: attrs[h].name, value: attrs[h].value }) =~= attrs);
        },
        RoleModel::ImportMapText | RoleModel::StyleText => {
            if first_text(t) is Some {
                let c0 = t.children[0];
                assert(TreeModel { data: DataModel::Text { contents: first_text(t)->0 }, children: c0.children } == c0);
                assert(t.children.update(0, c0) =~= t.children);
            }
        },
        RoleModel::Descend => {
            lemma_relinked_seq_identity(t.children);
            match t.data {
                DataModel::Element { template_contents: Some(c), .. } => {
                    let inner = link_targets(*c);
                    let all = link_targets(t);
                    let vs = current_values(all);
                    assert(all == inner + link_targets_seq(t.children));
                    assert(vs.take(inner.len() as int) =~= current_values(inner));
                    assert(vs.skip(inner.len() as int) =~= current_values(link_targets_seq(t.children)));
                    lemma_relinked_identity(*c);
                },
                _ => {
                    assert(link_targets(t) =~= link_targets_seq(t.children));
                },
            }
        },
        RoleModel::Skip => {},
    }
}

proof fn lemma_relinked_seq_identity(cs: Seq<TreeModel>)
    ensures
        relinked_seq(cs, current_values(link_targets_seq(cs))) == cs,
    decreases cs,
{
    if cs.len() > 0 {
        let p = cs.drop_last();
        let vs = current_values(link_targets_seq(cs));
        let n = link_targets_seq(p).len();
        assert(vs.take(n as int) =~= current_values(link_targets_seq(p)));
        assert(vs.skip(n as int) =~= current_values(link_targets(cs.last())));
        lemma_relinked_seq_identity(p);
        lemma_relinked_identity(cs.last());
        assert(p.push(cs.last()) =~= cs);
    }
}

/// Handing every target the value it holds now changes nothing.
pub proof fn law_relinking_current_values_is_identity(t: TreeModel)
    ensures
        relinked(t, current_values(link_targets(t))) == t,
{
    lemma_relinked_identity(t);
}

/// Whether every asset target is a local URL.
pub open spec fn assets_are_local(ts: Seq<TargetModel>) -> bool {
    forall|i: int| 0 <= i < ts.len() ==> (#[trigger] ts[i] matches TargetModel::Asset(u) ==> url_is_local(u))
}

proof fn lemma_assets_local_concat(a: Seq<TargetModel>, b: Seq<TargetModel>)
    requires
        assets_are_local(a),
        assets_are_local(b),
    ensures
        assets_are_local(a + b),
{
    assert forall|i: int| 0 <= i < (a + b).len() implies (#[trigger] (a + b)[i] matches TargetModel::Asset(u) ==> url_is_local(u)) by {
        if i < a.len() {
            assert((a + b)[i] == a[i]);
        } else {
            assert((a + b)[i] == b[i - a.len()]);
        }
    }
}

proof fn lemma_assets_local(t: TreeModel)
    ensures
        assets_are_local(link_targets(t)),
    decreases t,
{
    lemma_assets_local_seq(t.children);
    let inner = match t.data {
        DataModel::Element { template_contents: Some(c), .. } => {
            lemma_assets_local(*c);
            link_targets(*c)
        },
        _ => Seq::empty(),
    };
    if role(t) is Descend {
        lemma_assets_local_concat(inner, link_targets_seq(t.children));
    }
}

proof fn lemma_assets_local_seq(cs: Seq<TreeModel>)
    ensures
        assets_are_local(link_targets_seq(cs)),
    decreases cs,
{
    if cs.len() > 0 {
        lemma_assets_local_seq(cs.drop_last());
        lemma_assets_local(cs.last());
        lemma_assets_local_concat(link_targets_seq(cs.drop_last()), link_targets(cs.last()));
    }
}

/// Only local URLs are cache busted: a URL with a scheme is never a target.
pub proof fn law_only_local_assets_are_targets(t: TreeModel)
    ensures
        assets_are_local(link_targets(t)),
{
    lemma_assets_local(t);
}

/// The new value of a style sheet marks each asset URL with the digest of
/// its own file: the k-th asset line (after the whole lines `p`, which hold
/// `k` asset URLs, and the marker `m`) is written as its URL cache busted with
/// the digest of `files[k]`, and the other lines are rewritten with the digests
/// `ds` of the files, taken in the same order.
pub proof fn law_style_sheet_assets_get_their_own_file_digest(
    css: Seq<char>,
    files: Seq<Seq<u8>>,
    ds: Seq<Seq<char>>,
    p: Seq<Seq<char>>,
    m: Seq<char>,
    u: Seq<char>,
    s: Seq<Seq<char>>,
)
    requires
        input_fits(TargetModel::Stylesheet(css), InputModel::Stylesheet(files)),
        ds.len() == files.len(),
        forall|k: int| 0 <= k < files.len() ==> #[trigger] ds[k] == asset_digest(files[k]),
        text_lines(css) == p + seq![m, u] + s,
        css_lines_defined(p),
        is_marker_line(m),
    ensures
        css_urls(text_lines(css))[css_urls(p).len() as int] == unquoted(u),
        css_urls(p).len() < files.len(),
        target_value(TargetModel::Stylesheet(css), InputModel::Stylesheet(files)) == css_rewritten(p, ds) + m
            + seq!['\n', '"'] + cachebusted(unquoted(u), asset_digest(files[css_urls(p).len() as int])) + seq![
            '"',
            '\n',
        ] + css_rewritten(s, ds.skip(css_urls(p).len() + 1int)),
{
    let k = css_urls(p).len() as int;
    assert(files.map_values(|f: Seq<u8>| asset_digest(f)) =~= ds);
    law_kth_asset_line_gets_the_kth_digest(p, m, u, s, ds);
    assert(ds[k] == asset_digest(files[k]));
}

} // verus!
