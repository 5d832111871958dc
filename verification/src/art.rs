//! Which command-button textures the skin export converts, and where to.
use vstd::prelude::*;
use vstd::string::StringSliceAdditionalSpecFns;
use vstd::string::StringExecFns;
use vstd::utf8::encode_utf8;
use crate::assoc::{lookup, find_key, lemma_find_key};
use crate::sylk_parse::lemma_encode_utf8_concat;
use crate::txt_data::{PropValueOwned, data_view, owned_props_view, strings_view};
use crate::txt_types::PropValueModel;
use crate::utf8_slice::{ascii_edge, substr_ascii};

verus! {

broadcast use {vstd::utf8::is_ascii_chars_encode_utf8, vstd::utf8::encode_utf8_decode_utf8};

/// What becomes of one art path of a skin file.
#[derive(Debug, PartialEq)]
pub enum ArtPath {
    /// An empty path: skipped.
    Empty,
    /// Not under `ReplaceableTextures\CommandButtons\` or `ReplaceableTextures\PassiveButtons\`.
    UnexpectedPath,
    /// Not a `.blp` file.
    NotBlp,
    /// The texture to convert: its `.dds` path in storage and the name of the
    /// `.jpg` file to write.
    Dds { dds_path: String, file_name: String },
}

pub enum ArtPathModel {
    Empty,
    UnexpectedPath,
    NotBlp,
    Dds { dds_path: Seq<u8>, file_name: Seq<u8> },
}

impl View for ArtPath {
    type V = ArtPathModel;

    open spec fn view(&self) -> ArtPathModel {
        match self {
            ArtPath::Empty => ArtPathModel::Empty,
            ArtPath::UnexpectedPath => ArtPathModel::UnexpectedPath,
            ArtPath::NotBlp => ArtPathModel::NotBlp,
            ArtPath::Dds { dds_path, file_name } => ArtPathModel::Dds {
                dds_path: encode_utf8(dds_path@),
                file_name: encode_utf8(file_name@),
            },
        }
    }
}

pub open spec fn starts_with(s: Seq<u8>, pre: Seq<u8>) -> bool {
    pre.len() <= s.len() && s.take(pre.len() as int) == pre
}

pub open spec fn ends_with(s: Seq<u8>, suf: Seq<u8>) -> bool {
    suf.len() <= s.len() && s.skip(s.len() - suf.len()) == suf
}

/// `\` made `/`.
pub open spec fn slashes(b: Seq<u8>) -> Seq<u8> {
    b.map_values(|x: u8| if x == 0x5c { 0x2fu8 } else { x })
}

/// What follows the last `/` (all of `b` when it has none).
pub open spec fn after_last_slash(b: Seq<u8>) -> Seq<u8>
    decreases b.len(),
{
    if b.len() == 0 {
        b
    } else if b.last() == 0x2f {
        seq![]
    } else {
        after_last_slash(b.drop_last()).push(b.last())
    }
}

/// The file stem of a path that ends in `.dds`: its last component without
/// the extension (kept whole when the component is just `.dds`).
pub open spec fn dds_stem(dds: Seq<u8>) -> Seq<u8> {
    let name = after_last_slash(dds);
    if name.len() == 4 {
        name
    } else {
        name.take(name.len() - 4)
    }
}

pub open spec fn command_buttons() -> Seq<u8> {
    "ReplaceableTextures\\CommandButtons\\".spec_bytes()
}

pub open spec fn passive_buttons() -> Seq<u8> {
    "ReplaceableTextures\\PassiveButtons\\".spec_bytes()
}

/// The texture path of an art path (which ends in `.blp`): `.blp` becomes
/// `.dds` and backslashes become slashes.
pub open spec fn dds_path_of(p: Seq<u8>) -> Seq<u8> {
    slashes(p.take(p.len() - 3)) + seq![0x64u8, 0x64u8, 0x73u8]
}

pub open spec fn art_path_model(p: Seq<u8>) -> ArtPathModel {
    if p.len() == 0 {
        ArtPathModel::Empty
    } else if !starts_with(p, command_buttons()) && !starts_with(p, passive_buttons()) {
        ArtPathModel::UnexpectedPath
    } else if !ends_with(p, seq![0x2eu8, 0x62u8, 0x6cu8, 0x70u8]) {
        ArtPathModel::NotBlp
    } else {
        ArtPathModel::Dds {
            dds_path: dds_path_of(p),
            file_name: dds_stem(dds_path_of(p)) + seq![0x2eu8, 0x6au8, 0x70u8, 0x67u8],
        }
    }
}

fn bytes_start_with(s: &[u8], pre: &[u8]) -> (r: bool)
    ensures
        r == starts_with(s@, pre@),
{
    if pre.len() > s.len() {
        return false;
    }
    let mut i: usize = 0;
    while i < pre.len()
        invariant
            pre@.len() <= s@.len(),
            i <= pre@.len(),
            forall|j: int| 0 <= j < i ==> s@[j] == pre@[j],
        decreases pre@.len() - i,
    {
        if s[i] != pre[i] {
            return false;
        }
        i = i + 1;
    }
    assert(s@.take(pre@.len() as int) =~= pre@);
    true
}

fn append_slash(r: &mut String)
    ensures
        encode_utf8(final(r)@) == encode_utf8(old(r)@) + seq![0x2fu8],
{
    let slash = "/";
    proof {
        reveal_strlit("/");
        assert(vstd::utf8::is_ascii_chars(slash@));
        lemma_encode_utf8_concat(r@, slash@);
    }
    r.append(slash);
}

fn append_str(r: &mut String, s: &str)
    ensures
        encode_utf8(final(r)@) == encode_utf8(old(r)@) + s.spec_bytes(),
{
    proof {
        lemma_encode_utf8_concat(r@, s@);
    }
    r.append(s);
}

/// The `.dds` texture path of an art path that ends in `.blp`.
fn dds_path(path: &str) -> (r: String)
    requires
        ends_with(path.spec_bytes(), seq![0x2eu8, 0x62u8, 0x6cu8, 0x70u8]),
    ensures
        encode_utf8(r@) == dds_path_of(path.spec_bytes()),
{
    let b = path.as_bytes();
    let n = b.len();
    let cut = n - 3;
    let ghost p = path.spec_bytes();
    assert(p[cut - 1] == 0x2e) by {
        assert(p.skip(n - 4)[0] == p[n - 4]);
    }
    let mut r = String::new();
    let mut seg: usize = 0;
    let mut i: usize = 0;
    assert(encode_utf8(r@) =~= slashes(p.take(0)));
    while i < cut
        invariant
            b@ == p,
            p == path.spec_bytes(),
            n == p.len(),
            cut == n - 3,
            seg <= i <= cut,
            ascii_edge(p, seg as int),
            encode_utf8(r@) == slashes(p.take(seg as int)),
            forall|j: int| seg <= j < i ==> p[j] != 0x5c,
        decreases cut - i,
    {
        if b[i] == 0x5c {
            let piece = substr_ascii(path, seg, i);
            let ghost before = encode_utf8(r@);
            append_str(&mut r, piece);
            append_slash(&mut r);
            assert(slashes(p.take(i + 1)) =~= slashes(p.take(seg as int)) + piece.spec_bytes() + seq![
                0x2fu8,
            ]);
            seg = i + 1;
        }
        i = i + 1;
    }
    let piece = substr_ascii(path, seg, cut);
    append_str(&mut r, piece);
    assert(slashes(p.take(cut as int)) =~= slashes(p.take(seg as int)) + piece.spec_bytes());
    let dds = "dds";
    proof {
        reveal_strlit("dds");
        assert(vstd::utf8::is_ascii_chars(dds@));
    }
    append_str(&mut r, dds);
    assert(dds.spec_bytes() =~= seq![0x64u8, 0x64u8, 0x73u8]);
    r
}


/// With no `/` from `k` on, the last component runs on through the end of `b`.
pub proof fn lemma_after_last_slash(b: Seq<u8>, k: int)
    requires
        0 <= k <= b.len(),
        forall|j: int| k <= j < b.len() ==> b[j] != 0x2f,
    ensures
        after_last_slash(b) == after_last_slash(b.take(k)) + b.skip(k),
    decreases b.len(),
{
    if k == b.len() {
        assert(b.take(k) =~= b);
        assert(b.skip(k) =~= Seq::<u8>::empty());
        assert(after_last_slash(b) + Seq::<u8>::empty() =~= after_last_slash(b));
    } else {
        let d = b.drop_last();
        lemma_after_last_slash(d, k);
        assert(d.take(k) =~= b.take(k));
        assert(d.skip(k).push(b.last()) =~= b.skip(k));
        assert((after_last_slash(d.take(k)) + d.skip(k)).push(b.last()) =~= after_last_slash(b.take(k))
            + b.skip(k));
    }
}

/// The name of the `.jpg` file for the texture at `dds` (which ends in `.dds`).
fn jpg_file_name(dds: &String) -> (r: String)
    requires
        ends_with(encode_utf8(dds@), seq![0x2eu8, 0x64u8, 0x64u8, 0x73u8]),
    ensures
        encode_utf8(r@) == dds_stem(encode_utf8(dds@)) + seq![0x2eu8, 0x6au8, 0x70u8, 0x67u8],
{
    let s = dds.as_str();
    let b = s.as_bytes();
    let n = b.len();
    let ghost d = encode_utf8(dds@);
    assert(b@ == d);
    assert forall|j: int| n - 4 <= j < n implies d[j] != 0x2f by {
        assert(d.skip(n - 4)[j - (n - 4)] == d[j]);
    }
    let mut k = n;
    while k > 0 && b[k - 1] != 0x2f
        invariant
            b@ == d,
            n == d.len(),
            k <= n,
            forall|j: int| n - 4 <= j < n ==> d[j] != 0x2f,
            forall|j: int| k <= j < n ==> d[j] != 0x2f,
        decreases k,
    {
        k = k - 1;
    }
    proof {
        lemma_after_last_slash(d, k as int);
        if k > 0 {
            assert(after_last_slash(d.take(k as int)) =~= Seq::<u8>::empty()) by {
                assert(d.take(k as int).last() == 0x2f);
            }
        } else {
            assert(d.take(0) =~= Seq::<u8>::empty());
        }
        assert(Seq::<u8>::empty() + d.skip(k as int) =~= d.skip(k as int));
        assert(d[n - 4] == 0x2e) by {
            assert(d.skip(n - 4)[0] == d[n - 4]);
        }
    }
    let stem = if n - k == 4 {
        substr_ascii(s, k, n)
    } else {
        substr_ascii(s, k, n - 4)
    };
    assert(stem.spec_bytes() =~= dds_stem(d));
    let mut r = String::new();
    assert(encode_utf8(r@) =~= Seq::<u8>::empty());
    append_str(&mut r, stem);
    let jpg = ".jpg";
    proof {
        reveal_strlit(".jpg");
        assert(vstd::utf8::is_ascii_chars(jpg@));
    }
    append_str(&mut r, jpg);
    assert(jpg.spec_bytes() =~= seq![0x2eu8, 0x6au8, 0x70u8, 0x67u8]);
    r
}

/// Decides what becomes of an art path: skipped when empty, rejected when
/// not a command or passive button, or not a `.blp` file; otherwise the
/// `.dds` texture to read and the `.jpg` file to write.
pub fn art_dds_path(path: &str) -> (r: ArtPath)
    ensures
        r@ == art_path_model(path.spec_bytes()),
{
    let b = path.as_bytes();
    let n = b.len();
    if n == 0 {
        return ArtPath::Empty;
    }
    let cb = "ReplaceableTextures\\CommandButtons\\";
    let pb = "ReplaceableTextures\\PassiveButtons\\";
    if !bytes_start_with(b, cb.as_bytes()) && !bytes_start_with(b, pb.as_bytes()) {
        return ArtPath::UnexpectedPath;
    }
    let blp = n >= 4 && b[n - 4] == 0x2e && b[n - 3] == 0x62 && b[n - 2] == 0x6c && b[n - 1] == 0x70;
    let ghost suf = seq![0x2eu8, 0x62u8, 0x6cu8, 0x70u8];
    if n >= 4 {
        assert(blp == (b@.skip(n - 4) =~= suf));
    }
    if !blp {
        return ArtPath::NotBlp;
    }
    let d = dds_path(path);
    proof {
        let dd = encode_utf8(d@);
        let x = slashes(b@.take(n - 3));
        assert(x[n - 4] == 0x2e);
        assert(dd.skip(dd.len() - 4) =~= seq![0x2eu8, 0x64u8, 0x64u8, 0x73u8]) by {
            assert(dd =~= x + seq![0x64u8, 0x64u8, 0x73u8]);
        }
    }
    let f = jpg_file_name(&d);
    ArtPath::Dds { dds_path: d, file_name: f }
}


/// The key `Art`.
pub open spec fn art_key() -> Seq<u8> {
    seq![0x41u8, 0x72u8, 0x74u8]
}

/// The art paths of a section: its `Art` value, one path or a list.
pub open spec fn section_arts(props: Seq<(Seq<u8>, PropValueModel)>) -> Seq<Seq<u8>> {
    match lookup(props, art_key()) {
        Some(PropValueModel::String(p)) => seq![p],
        Some(PropValueModel::Array(v)) => v,
        None => seq![],
    }
}

/// The art paths of all sections, in order.
pub open spec fn data_arts(d: Seq<(Seq<u8>, Seq<(Seq<u8>, PropValueModel)>)>) -> Seq<Seq<u8>>
    decreases d.len(),
{
    if d.len() == 0 {
        seq![]
    } else {
        data_arts(d.drop_last()) + section_arts(d.last().1)
    }
}

pub open spec fn no_dup(s: Seq<Seq<u8>>) -> bool {
    forall|i: int, j: int| 0 <= i < j < s.len() ==> s[i] != s[j]
}

fn is_art_key(k: &String) -> (r: bool)
    ensures
        r == (encode_utf8(k@) == art_key()),
{
    let b = k.as_str().as_bytes();
    let r = b.len() == 3 && b[0] == 0x41 && b[1] == 0x72 && b[2] == 0x74;
    assert(r == (b@ =~= art_key()));
    r
}

/// Adds `x` to `arts` unless it is there already.
fn insert_distinct(arts: &mut Vec<String>, x: String)
    ensures
        no_dup(strings_view(old(arts)@)) ==> no_dup(strings_view(final(arts)@)),
        forall|b: Seq<u8>| #[trigger] strings_view(final(arts)@).contains(b) <==> (strings_view(old(arts)@).contains(b) || b == encode_utf8(x@)),
{
    let ghost old_view = strings_view(arts@);
    let mut i: usize = 0;
    while i < arts.len()
        invariant
            arts@ == old(arts)@,
            old_view == strings_view(arts@),
            i <= arts@.len(),
            forall|j: int| 0 <= j < i ==> old_view[j] != encode_utf8(x@),
        decreases arts@.len() - i,
    {
        if arts[i] == x {
            assert(old_view.contains(encode_utf8(x@))) by {
                assert(old_view[i as int] == encode_utf8(x@));
            }
            return;
        }
        proof {
            if old_view[i as int] == encode_utf8(x@) {
                assert(vstd::utf8::decode_utf8(encode_utf8(arts@[i as int]@)) == arts@[i as int]@);
                assert(vstd::utf8::decode_utf8(encode_utf8(x@)) == x@);
            }
        }
        i = i + 1;
    }
    let ghost xv = encode_utf8(x@);
    arts.push(x);
    assert(strings_view(arts@) =~= old_view.push(xv));
    assert forall|b: Seq<u8>| #[trigger] strings_view(arts@).contains(b) <==> (old_view.contains(b) || b == xv) by {
        if strings_view(arts@).contains(b) {
            let j = choose|j: int| 0 <= j < strings_view(arts@).len() && strings_view(arts@)[j] == b;
            if j < old_view.len() {
                assert(old_view[j] == b);
            }
        }
        if b == xv {
            assert(strings_view(arts@)[old_view.len() as int] == b);
        }
        if old_view.contains(b) {
            let j = choose|j: int| 0 <= j < old_view.len() && old_view[j] == b;
            assert(strings_view(arts@)[j] == b);
        }
    }
}

/// Every path of the art of each section is among the art paths of all sections.
proof fn lemma_data_arts_has_section_arts(d: Seq<(Seq<u8>, Seq<(Seq<u8>, PropValueModel)>)>, i: int, j: int)
    requires
        0 <= i < d.len(),
        0 <= j < section_arts(d[i].1).len(),
    ensures
        data_arts(d).contains(section_arts(d[i].1)[j]),
    decreases d.len(),
{
    let a0 = data_arts(d.drop_last());
    let x = section_arts(d[i].1)[j];
    if i == d.len() - 1 {
        assert((a0 + section_arts(d.last().1))[a0.len() + j] == x);
    } else {
        assert(d.drop_last()[i] == d[i]);
        lemma_data_arts_has_section_arts(d.drop_last(), i, j);
        let w = choose|w: int| 0 <= w < a0.len() && a0[w] == x;
        assert((a0 + section_arts(d.last().1))[w] == x);
    }
}

/// Adds to `arts` the paths of the `Art` property of each section of
/// `data`, each path once.
pub fn collect_arts(data: &Vec<(String, Vec<(String, PropValueOwned)>)>, arts: &mut Vec<String>)
    ensures
        no_dup(strings_view(old(arts)@)) ==> no_dup(strings_view(final(arts)@)),
        forall|b: Seq<u8>| #[trigger] strings_view(final(arts)@).contains(b) <==> (strings_view(old(arts)@).contains(b) || data_arts(data_view(data@)).contains(b)),
        forall|i: int| 0 <= i < data@.len() ==> match #[trigger] lookup(data_view(data@)[i].1, art_key()) {
            Some(PropValueModel::String(p)) => strings_view(final(arts)@).contains(p),
            Some(PropValueModel::Array(v)) => forall|j: int| 0 <= j < v.len() ==> strings_view(final(arts)@).contains(#[trigger] v[j]),
            None => true,
        },
{
    let ghost start = strings_view(arts@);
    let mut i: usize = 0;
    while i < data.len()
        invariant
            i <= data@.len(),
            no_dup(start) ==> no_dup(strings_view(arts@)),
            forall|b: Seq<u8>| #[trigger] strings_view(arts@).contains(b) <==> (start.contains(b)
                || data_arts(data_view(data@).take(i as int)).contains(b)),
            start == strings_view(old(arts)@),
        decreases data@.len() - i,
    {
        let props = &data[i].1;
        let ghost pv = owned_props_view(props@);
        let ghost before = strings_view(arts@);
        let mut j: usize = 0;
        while j < props.len() && !is_art_key(&props[j].0)
            invariant
                j <= props@.len(),
                pv == owned_props_view(props@),
                find_key(pv, art_key(), j as int) == find_key(pv, art_key(), 0),
            decreases props@.len() - j,
        {
            j = j + 1;
        }
        proof {
            lemma_find_key(pv, art_key(), 0);
        }
        let ghost added: Seq<Seq<u8>> = section_arts(pv);
        if j < props.len() {
            match &props[j].1 {
                PropValueOwned::String(s) => {
                    insert_distinct(arts, s.clone());
                    assert(added =~= seq![encode_utf8(s@)]);
                    assert forall|b: Seq<u8>| #[trigger] strings_view(arts@).contains(b) <==> (before.contains(b) || added.contains(b)) by {
                        if b == encode_utf8(s@) {
                            assert(added[0] == b);
                        }
                    }
                },
                PropValueOwned::Array(v) => {
                    let mut k: usize = 0;
                    while k < v.len()
                        invariant
                            k <= v@.len(),
                            added == strings_view(v@),
                            no_dup(before) ==> no_dup(strings_view(arts@)),
                            forall|b: Seq<u8>| #[trigger] strings_view(arts@).contains(b) <==> (before.contains(b)
                                || added.take(k as int).contains(b)),
                        decreases v@.len() - k,
                    {
                        let ghost mid = strings_view(arts@);
                        insert_distinct(arts, v[k].clone());
                        assert forall|b: Seq<u8>| #[trigger] strings_view(arts@).contains(b) <==> (before.contains(b)
                            || added.take(k + 1).contains(b)) by {
                            let t0 = added.take(k as int);
                            let t1 = added.take(k + 1);
                            assert(t1 =~= t0.push(added[k as int]));
                            if t0.contains(b) {
                                let w = choose|w: int| 0 <= w < t0.len() && #[trigger] t0[w] == b;
                                assert(t1[w] == b);
                            }
                            if t1.contains(b) {
                                let w = choose|w: int| 0 <= w < t1.len() && #[trigger] t1[w] == b;
                                if w < k {
                                    assert(t0[w] == b);
                                }
                            }
                            if b == added[k as int] {
                                assert(t1[k as int] == b);
                            }
                        }
                        k = k + 1;
                    }
                    assert(added.take(v@.len() as int) =~= added);
                },
            }
        } else {
            assert(added =~= Seq::<Seq<u8>>::empty());
        }
        proof {
            let d = data_view(data@);
            assert(d.take(i + 1).drop_last() =~= d.take(i as int));
            assert(d.take(i + 1).last().1 == pv);
            let a0 = data_arts(d.take(i as int));
            assert(data_arts(d.take(i + 1)) == a0 + added);
            assert forall|b: Seq<u8>| #[trigger] (a0 + added).contains(b) <==> (a0.contains(b) || added.contains(b)) by {
                if (a0 + added).contains(b) {
                    let w = choose|w: int| 0 <= w < (a0 + added).len() && (a0 + added)[w] == b;
                    if w < a0.len() {
                        assert(a0[w] == b);
                    } else {
                        assert(added[w - a0.len()] == b);
                    }
                }
                if a0.contains(b) {
                    let w = choose|w: int| 0 <= w < a0.len() && a0[w] == b;
                    assert((a0 + added)[w] == b);
                }
                if added.contains(b) {
                    let w = choose|w: int| 0 <= w < added.len() && added[w] == b;
                    assert((a0 + added)[a0.len() + w] == b);
                }
            }
        }
        i = i + 1;
    }
    assert(data_view(data@).take(data@.len() as int) =~= data_view(data@));
    proof {
        let d = data_view(data@);
        assert forall|i: int| 0 <= i < data@.len() implies match #[trigger] lookup(d[i].1, art_key()) {
            Some(PropValueModel::String(p)) => strings_view(arts@).contains(p),
            Some(PropValueModel::Array(v)) => forall|j: int| 0 <= j < v.len() ==> strings_view(arts@).contains(#[trigger] v[j]),
            None => true,
        } by {
            match lookup(d[i].1, art_key()) {
                Some(PropValueModel::String(p)) => {
                    lemma_data_arts_has_section_arts(d, i, 0);
                },
                Some(PropValueModel::Array(v)) => {
                    assert forall|j: int| 0 <= j < v.len() implies strings_view(arts@).contains(#[trigger] v[j]) by {
                        lemma_data_arts_has_section_arts(d, i, j);
                    }
                },
                None => {},
            }
        }
    }
}


/// Law: a texture path has no backslash and ends in `.dds`, and the file
/// written for it ends in `.jpg`.
pub proof fn lemma_art_path_shape(p: Seq<u8>)
    ensures
        art_path_model(p) matches ArtPathModel::Dds { dds_path, file_name } ==> {
            &&& forall|i: int| 0 <= i < dds_path.len() ==> dds_path[i] != 0x5c
            &&& ends_with(dds_path, seq![0x2eu8, 0x64u8, 0x64u8, 0x73u8])
            &&& ends_with(file_name, seq![0x2eu8, 0x6au8, 0x70u8, 0x67u8])
        },
{
    if art_path_model(p) is Dds {
        let n = p.len();
        let x = slashes(p.take(n - 3));
        let d = dds_path_of(p);
        assert(p[n - 4] == 0x2e) by {
            assert(p.skip(n - 4)[0] == p[n - 4]);
        }
        assert(x[n - 4] == 0x2e);
        assert(d.skip(d.len() - 4) =~= seq![0x2eu8, 0x64u8, 0x64u8, 0x73u8]);
        let f = dds_stem(d) + seq![0x2eu8, 0x6au8, 0x70u8, 0x67u8];
        assert(f.skip(f.len() - 4) =~= seq![0x2eu8, 0x6au8, 0x70u8, 0x67u8]);
        assert forall|i: int| 0 <= i < d.len() implies d[i] != 0x5c by {
            if i < x.len() {
                assert(x[i] == (if p[i] == 0x5c { 0x2fu8 } else { p[i] }));
            }
        }
    }
}

} // verus!
