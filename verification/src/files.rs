//! Recognising image files by the extension of their names, and grouping
//! frames into scenes by their directory.
use vstd::prelude::*;

verus! {

/// `.`
pub const DOT: u8 = 0x2E;

/// Position of the last `.` of the name, or -1 when there is none.
pub open spec fn rfind_dot(s: Seq<u8>) -> int
    decreases s.len(),
{
    if s.len() == 0 {
        -1
    } else if s.last() == DOT {
        s.len() - 1
    } else {
        rfind_dot(s.drop_last())
    }
}

/// The extension of a file name, as `Path::extension` splits it: the bytes
/// after the last `.`, provided something comes before that dot and the
/// name is not `..`.
pub open spec fn extension_of(name: Seq<u8>) -> Option<Seq<u8>> {
    let p = rfind_dot(name);
    if name == seq![DOT, DOT] || p <= 0 {
        None
    } else {
        Some(name.subrange(p + 1, name.len() as int))
    }
}

/// ASCII lower case of a byte (other bytes unchanged).
pub open spec fn ascii_lower(b: u8) -> u8 {
    if 0x41 <= b <= 0x5A {
        (b + 0x20) as u8
    } else {
        b
    }
}

/// `s` equals the lower-case ASCII word `word` when ASCII case is ignored.
pub open spec fn eq_ignore_ascii_case(s: Seq<u8>, word: Seq<u8>) -> bool {
    s.len() == word.len() && forall|i: int| 0 <= i < s.len() ==> ascii_lower(#[trigger] s[i]) == word[i]
}

/// `png`
pub open spec fn png() -> Seq<u8> {
    seq![0x70u8, 0x6Eu8, 0x67u8]
}

/// `jpg`
pub open spec fn jpg() -> Seq<u8> {
    seq![0x6Au8, 0x70u8, 0x67u8]
}

/// `jpeg`
pub open spec fn jpeg() -> Seq<u8> {
    seq![0x6Au8, 0x70u8, 0x65u8, 0x67u8]
}

/// A PNG, JPG or JPEG file, by its extension in any case.
pub open spec fn spec_is_image_name(name: Seq<u8>) -> bool {
    match extension_of(name) {
        Some(e) => eq_ignore_ascii_case(e, png()) || eq_ignore_ascii_case(e, jpg())
            || eq_ignore_ascii_case(e, jpeg()),
        None => false,
    }
}

/// A PNG file, by its extension in any case.
pub open spec fn spec_is_png_name(name: Seq<u8>) -> bool {
    match extension_of(name) {
        Some(e) => eq_ignore_ascii_case(e, png()),
        None => false,
    }
}

proof fn lemma_rfind_dot(s: Seq<u8>)
    ensures
        -1 <= rfind_dot(s) < s.len(),
        rfind_dot(s) >= 0 ==> s[rfind_dot(s)] == DOT,
        forall|q: int| rfind_dot(s) < q < s.len() ==> #[trigger] s[q] != DOT,
    decreases s.len(),
{
    if s.len() > 0 && s.last() != DOT {
        lemma_rfind_dot(s.drop_last());
        assert forall|q: int| rfind_dot(s) < q < s.len() implies #[trigger] s[q] != DOT by {
            if q < s.len() - 1 {
                assert(s.drop_last()[q] == s[q]);
            }
        }
    }
}

proof fn lemma_rfind_dot_unique(s: Seq<u8>, p: int)
    requires
        -1 <= p < s.len(),
        p >= 0 ==> s[p] == DOT,
        forall|q: int| p < q < s.len() ==> #[trigger] s[q] != DOT,
    ensures
        rfind_dot(s) == p,
    decreases s.len(),
{
    if s.len() > 0 && s.last() != DOT {
        assert forall|q: int| p < q < s.drop_last().len() implies #[trigger] s.drop_last()[q] != DOT by {
            assert(s.drop_last()[q] == s[q]);
        }
        if p == s.len() - 1 {
            assert(false);
        }
        lemma_rfind_dot_unique(s.drop_last(), p);
    } else if s.len() > 0 {
        assert(p == s.len() - 1);
    }
}

/// Start of the extension of a file name (see [`extension_of`]), if it has
/// one.
pub fn extension_start(name: &[u8]) -> (r: Option<usize>)
    ensures
        r is Some <==> extension_of(name@) is Some,
        r is Some ==> r->Some_0 <= name.len() && extension_of(name@) == Some(
            name@.subrange(r->Some_0 as int, name.len() as int),
        ),
{
    let n = name.len();
    if n == 2 && name[0] == DOT && name[1] == DOT {
        assert(name@ =~= seq![DOT, DOT]);
        return None;
    }
    let mut i: usize = n;
    while i > 0 && name[i - 1] != DOT
        invariant
            i <= n,
            n == name.len(),
            forall|q: int| i <= q < n ==> #[trigger] name@[q] != DOT,
        decreases i,
    {
        i = i - 1;
    }
    proof {
        lemma_rfind_dot_unique(name@, i - 1);
    }
    if i <= 1 {
        None
    } else {
        Some(i)
    }
}

/// Whether the bytes `name[start..]` spell `word` (given in lower case)
/// when ASCII case is ignored.
fn ends_with_word_ignore_case(name: &[u8], start: usize, word: &Vec<u8>) -> (r: bool)
    requires
        start <= name.len(),
    ensures
        r == eq_ignore_ascii_case(name@.subrange(start as int, name.len() as int), word@),
{
    let ghost e = name@.subrange(start as int, name.len() as int);
    if name.len() - start != word.len() {
        return false;
    }
    let mut i: usize = 0;
    while i < word.len()
        invariant
            start <= name.len(),
            name.len() - start == word.len(),
            e == name@.subrange(start as int, name.len() as int),
            i <= word.len(),
            forall|k: int| 0 <= k < i ==> ascii_lower(#[trigger] e[k]) == word@[k],
        decreases word.len() - i,
    {
        let b = name[start + i];
        let lower = if 0x41 <= b && b <= 0x5A {
            b + 0x20
        } else {
            b
        };
        assert(e[i as int] == b);
        if lower != word[i] {
            return false;
        }
        i = i + 1;
    }
    true
}

/// Whether a file name has the extension `png`, `jpg` or `jpeg` in any case.
pub fn is_image(name: &[u8]) -> (r: bool)
    ensures
        r == spec_is_image_name(name@),
{
    match extension_start(name) {
        Some(start) => {
            let png_word: Vec<u8> = vec![0x70u8, 0x6Eu8, 0x67u8];
            let jpg_word: Vec<u8> = vec![0x6Au8, 0x70u8, 0x67u8];
            let jpeg_word: Vec<u8> = vec![0x6Au8, 0x70u8, 0x65u8, 0x67u8];
            assert(png_word@ == png());
            assert(jpg_word@ == jpg());
            assert(jpeg_word@ == jpeg());
            ends_with_word_ignore_case(name, start, &png_word) || ends_with_word_ignore_case(name, start, &jpg_word)
                || ends_with_word_ignore_case(name, start, &jpeg_word)
        },
        None => false,
    }
}

/// Whether a file name has the extension `png` in any case.
pub fn is_png(name: &[u8]) -> (r: bool)
    ensures
        r == spec_is_png_name(name@),
{
    match extension_start(name) {
        Some(start) => {
            let png_word: Vec<u8> = vec![0x70u8, 0x6Eu8, 0x67u8];
            assert(png_word@ == png());
            ends_with_word_ignore_case(name, start, &png_word)
        },
        None => false,
    }
}

/// `ext` in ASCII lower case.
pub open spec fn lower_word(ext: Seq<u8>) -> Seq<u8> {
    ext.map_values(|b: u8| ascii_lower(b))
}

/// A name made of a non-empty stem, a dot and an extension without dots is
/// an image exactly when its extension, in lower case, is `png`, `jpg` or
/// `jpeg`, and a PNG exactly when it is `png`; in particular every
/// `stem.jpg`, `stem.JPG`, `stem.png`, `stem.jpeg` and `stem.JPEG` is an
/// image, and every `stem.PNG` is a PNG.
pub proof fn lemma_image_by_extension(stem: Seq<u8>, ext: Seq<u8>)
    requires
        stem.len() > 0,
        forall|i: int| 0 <= i < ext.len() ==> #[trigger] ext[i] != DOT,
        stem + seq![DOT] + ext != seq![DOT, DOT],
    ensures
        spec_is_image_name(stem + seq![DOT] + ext) <==> (lower_word(ext) == png() || lower_word(ext) == jpg()
            || lower_word(ext) == jpeg()),
        spec_is_png_name(stem + seq![DOT] + ext) <==> lower_word(ext) == png(),
        spec_is_image_name(stem + seq![DOT] + jpg()),
        spec_is_image_name(stem + seq![DOT] + seq![0x4Au8, 0x50u8, 0x47u8]),
        spec_is_image_name(stem + seq![DOT] + png()),
        spec_is_image_name(stem + seq![DOT] + jpeg()),
        spec_is_png_name(stem + seq![DOT] + seq![0x50u8, 0x4Eu8, 0x47u8]),
        spec_is_image_name(stem + seq![DOT] + seq![0x4Au8, 0x50u8, 0x45u8, 0x47u8]),
{
    lemma_extension_after_last_dot(stem, ext);
    lemma_word_ignore_case(ext, png());
    lemma_word_ignore_case(ext, jpg());
    lemma_word_ignore_case(ext, jpeg());
    let upper: Seq<u8> = seq![0x4Au8, 0x50u8, 0x47u8];
    assert forall|i: int| 0 <= i < upper.len() implies #[trigger] upper[i] != DOT by {}
    assert((stem + seq![DOT] + upper).len() != seq![DOT, DOT].len());
    lemma_extension_after_last_dot(stem, upper);
    lemma_word_ignore_case(upper, jpg());
    assert(lower_word(upper) =~= jpg());
    let upper_png: Seq<u8> = seq![0x50u8, 0x4Eu8, 0x47u8];
    assert forall|i: int| 0 <= i < upper_png.len() implies #[trigger] upper_png[i] != DOT by {}
    assert((stem + seq![DOT] + upper_png).len() != seq![DOT, DOT].len());
    lemma_extension_after_last_dot(stem, upper_png);
    lemma_word_ignore_case(upper_png, png());
    assert(lower_word(upper_png) =~= png());
    let upper_jpeg: Seq<u8> = seq![0x4Au8, 0x50u8, 0x45u8, 0x47u8];
    assert forall|i: int| 0 <= i < upper_jpeg.len() implies #[trigger] upper_jpeg[i] != DOT by {}
    assert((stem + seq![DOT] + upper_jpeg).len() != seq![DOT, DOT].len());
    lemma_extension_after_last_dot(stem, upper_jpeg);
    lemma_word_ignore_case(upper_jpeg, jpeg());
    assert(lower_word(upper_jpeg) =~= jpeg());
    assert forall|i: int| 0 <= i < jpg().len() implies #[trigger] jpg()[i] != DOT by {}
    assert((stem + seq![DOT] + jpg()).len() != seq![DOT, DOT].len());
    lemma_extension_after_last_dot(stem, jpg());
    lemma_word_ignore_case(jpg(), jpg());
    assert(lower_word(jpg()) =~= jpg());
    assert forall|i: int| 0 <= i < png().len() implies #[trigger] png()[i] != DOT by {}
    assert((stem + seq![DOT] + png()).len() != seq![DOT, DOT].len());
    lemma_extension_after_last_dot(stem, png());
    lemma_word_ignore_case(png(), png());
    assert(lower_word(png()) =~= png());
    assert forall|i: int| 0 <= i < jpeg().len() implies #[trigger] jpeg()[i] != DOT by {}
    assert((stem + seq![DOT] + jpeg()).len() != seq![DOT, DOT].len());
    lemma_extension_after_last_dot(stem, jpeg());
    lemma_word_ignore_case(jpeg(), jpeg());
    assert(lower_word(jpeg()) =~= jpeg());
}

proof fn lemma_extension_after_last_dot(stem: Seq<u8>, ext: Seq<u8>)
    requires
        stem.len() > 0,
        forall|i: int| 0 <= i < ext.len() ==> #[trigger] ext[i] != DOT,
    ensures
        stem + seq![DOT] + ext != seq![DOT, DOT] ==> extension_of(stem + seq![DOT] + ext) == Some(ext),
{
    let name = stem + seq![DOT] + ext;
    let p = stem.len() as int;
    assert(name[p] == DOT);
    assert forall|q: int| p < q < name.len() implies #[trigger] name[q] != DOT by {
        assert(name[q] == ext[q - p - 1]);
    }
    lemma_rfind_dot_unique(name, p);
    assert(name.subrange(p + 1, name.len() as int) =~= ext);
}

proof fn lemma_word_ignore_case(ext: Seq<u8>, word: Seq<u8>)
    ensures
        eq_ignore_ascii_case(ext, word) <==> lower_word(ext) == word,
{
    if eq_ignore_ascii_case(ext, word) {
        assert(lower_word(ext) =~= word);
    }
    if lower_word(ext) == word {
        assert forall|i: int| 0 <= i < ext.len() implies ascii_lower(#[trigger] ext[i]) == word[i] by {
            assert(lower_word(ext)[i] == ascii_lower(ext[i]));
        }
    }
}

/// Every file that the PNG listing keeps is also an image file.
pub proof fn lemma_png_is_image(name: Seq<u8>)
    ensures
        spec_is_png_name(name) ==> spec_is_image_name(name),
{
}

/// Byte-wise lexicographic order (the order of `String`s and of the keys of
/// a `BTreeMap<String, _>`).
pub open spec fn lex_lt(a: Seq<u8>, b: Seq<u8>) -> bool
    decreases a.len(),
{
    if a.len() == 0 {
        b.len() > 0
    } else if b.len() == 0 {
        false
    } else if a[0] != b[0] {
        a[0] < b[0]
    } else {
        lex_lt(a.drop_first(), b.drop_first())
    }
}

proof fn lemma_lex_irreflexive(a: Seq<u8>)
    ensures
        !lex_lt(a, a),
    decreases a.len(),
{
    if a.len() > 0 {
        lemma_lex_irreflexive(a.drop_first());
    }
}

proof fn lemma_lex_pair(a: Seq<u8>, b: Seq<u8>)
    ensures
        lex_lt(a, b) ==> !lex_lt(b, a),
        a != b ==> lex_lt(a, b) || lex_lt(b, a),
    decreases a.len(),
{
    if a.len() > 0 && b.len() > 0 {
        lemma_lex_pair(a.drop_first(), b.drop_first());
        if a != b && a[0] == b[0] {
            assert(a.drop_first() != b.drop_first()) by {
                if a.drop_first() == b.drop_first() {
                    assert(a =~= seq![a[0]] + a.drop_first());
                    assert(b =~= seq![b[0]] + b.drop_first());
                }
            }
        }
    } else if a.len() == 0 && b.len() == 0 {
        assert(a =~= b);
    }
}

proof fn lemma_lex_transitive(a: Seq<u8>, b: Seq<u8>, c: Seq<u8>)
    ensures
        lex_lt(a, b) && lex_lt(b, c) ==> lex_lt(a, c),
    decreases a.len(),
{
    if a.len() > 0 && b.len() > 0 && c.len() > 0 {
        lemma_lex_transitive(a.drop_first(), b.drop_first(), c.drop_first());
    }
}

/// The lexicographic order is a strict total order.
pub proof fn lemma_lex_order(a: Seq<u8>, b: Seq<u8>, c: Seq<u8>)
    ensures
        !lex_lt(a, a),
        lex_lt(a, b) ==> !lex_lt(b, a),
        lex_lt(a, b) && lex_lt(b, c) ==> lex_lt(a, c),
        a != b ==> lex_lt(a, b) || lex_lt(b, a),
{
    lemma_lex_irreflexive(a);
    lemma_lex_pair(a, b);
    lemma_lex_transitive(a, b, c);
}

proof fn lemma_lex_common_prefix(a: Seq<u8>, b: Seq<u8>, i: int)
    requires
        0 <= i <= a.len(),
        i <= b.len(),
        forall|k: int| 0 <= k < i ==> a[k] == b[k],
    ensures
        lex_lt(a, b) == lex_lt(a.skip(i), b.skip(i)),
    decreases i,
{
    if i > 0 {
        assert forall|k: int| 0 <= k < i - 1 implies a.drop_first()[k] == b.drop_first()[k] by {
            assert(a[k + 1] == b[k + 1]);
        }
        lemma_lex_common_prefix(a.drop_first(), b.drop_first(), i - 1);
        assert(a.drop_first().skip(i - 1) =~= a.skip(i));
        assert(b.drop_first().skip(i - 1) =~= b.skip(i));
    } else {
        assert(a.skip(0) =~= a);
        assert(b.skip(0) =~= b);
    }
}

/// Lexicographic comparison of two byte strings.
pub fn bytes_lt(a: &Vec<u8>, b: &Vec<u8>) -> (r: bool)
    ensures
        r == lex_lt(a@, b@),
{
    let mut i: usize = 0;
    while i < a.len() && i < b.len() && a[i] == b[i]
        invariant
            i <= a.len(),
            i <= b.len(),
            forall|k: int| 0 <= k < i ==> a@[k] == b@[k],
        decreases a.len() - i,
    {
        i = i + 1;
    }
    proof {
        lemma_lex_common_prefix(a@, b@, i as int);
    }
    if i == a.len() {
        i < b.len()
    } else if i == b.len() {
        false
    } else {
        assert(a@.skip(i as int)[0] == a@[i as int]);
        assert(b@.skip(i as int)[0] == b@[i as int]);
        a[i] < b[i]
    }
}

/// Equality of two byte strings.
pub fn bytes_eq(a: &Vec<u8>, b: &Vec<u8>) -> (r: bool)
    ensures
        r == (a@ == b@),
{
    if a.len() != b.len() {
        return false;
    }
    let mut i: usize = 0;
    while i < a.len()
        invariant
            a.len() == b.len(),
            i <= a.len(),
            forall|k: int| 0 <= k < i ==> a@[k] == b@[k],
        decreases a.len() - i,
    {
        if a[i] != b[i] {
            return false;
        }
        i = i + 1;
    }
    assert(a@ =~= b@);
    true
}

/// Scenes and their frames: scene names in increasing order, each with the
/// increasing positions of its frames among the first `n`, every one of
/// those frames in the scene of its name.
pub open spec fn grouping_ok(keys: Seq<Seq<u8>>, n: int, scenes: Seq<Vec<u8>>, members: Seq<Vec<usize>>) -> bool {
    &&& scenes.len() == members.len()
    &&& forall|g1: int, g2: int| 0 <= g1 < g2 < scenes.len() ==> lex_lt(#[trigger] scenes[g1]@, #[trigger] scenes[g2]@)
    &&& forall|g: int| 0 <= g < members.len() ==> (#[trigger] members[g])@.len() > 0
    &&& forall|g: int, a: int, b: int| 0 <= g < members.len() && 0 <= a < b < members[g]@.len() ==> #[trigger] members[g]@[a] < #[trigger] members[g]@[b]
    &&& forall|g: int, a: int| 0 <= g < members.len() && 0 <= a < members[g]@.len() ==> #[trigger] members[g]@[a] < n && keys[members[g]@[a] as int] == scenes[g]@
    &&& forall|j: int| 0 <= j < n ==> exists|g: int| 0 <= g < scenes.len() && scenes[g]@ == #[trigger] keys[j] && members[g]@.contains(j as usize)
}

/// Groups frames by scene name (the directory of each frame): one group per
/// distinct name, names in increasing byte order, frames of a group in their
/// input order.
pub fn group_by_scene(keys: &Vec<Vec<u8>>) -> (groups: (Vec<Vec<u8>>, Vec<Vec<usize>>))
    ensures
        grouping_ok(keys@.map_values(|k: Vec<u8>| k@), keys.len() as int, groups.0@, groups.1@),
{
    let ghost kv = keys@.map_values(|k: Vec<u8>| k@);
    let mut scenes: Vec<Vec<u8>> = Vec::new();
    let mut members: Vec<Vec<usize>> = Vec::new();
    let mut i: usize = 0;
    while i < keys.len()
        invariant
            kv == keys@.map_values(|k: Vec<u8>| k@),
            i <= keys.len(),
            grouping_ok(kv, i as int, scenes@, members@),
        decreases keys.len() - i,
    {
        let key = &keys[i];
        assert(kv[i as int] == key@);
        let mut p: usize = 0;
        while p < scenes.len() && bytes_lt(&scenes[p], key)
            invariant
                p <= scenes.len(),
                forall|g: int| 0 <= g < p ==> lex_lt(#[trigger] scenes@[g]@, key@),
            decreases scenes.len() - p,
        {
            p = p + 1;
        }
        let ghost old_scenes = scenes@;
        let ghost old_members = members@;
        if p < scenes.len() && bytes_eq(&scenes[p], key) {
            let mut m = members.remove(p);
            let ghost mv = m@;
            m.push(i);
            members.insert(p, m);
            proof {
                assert(members@ =~= old_members.update(p as int, members@[p as int]));
                assert(members@[p as int]@ == mv.push(i));
                assert forall|g: int, a: int, b: int| 0 <= g < members@.len() && 0 <= a < b < members@[g]@.len() implies #[trigger] members@[g]@[a] < #[trigger] members@[g]@[b] by {
                    if g == p && b == mv.len() {
                        assert(members@[g]@[a] == mv[a]);
                        assert(mv[a] < i);
                    } else if g == p {
                        assert(members@[g]@[a] == mv[a] && members@[g]@[b] == mv[b]);
                    }
                }
                assert forall|g: int, a: int| 0 <= g < members@.len() && 0 <= a < members@[g]@.len() implies #[trigger] members@[g]@[a] < i + 1 && kv[members@[g]@[a] as int] == scenes@[g]@ by {
                    if g == p && a < mv.len() {
                        assert(members@[g]@[a] == mv[a]);
                    }
                }
                assert forall|g: int| 0 <= g < members@.len() implies (#[trigger] members@[g])@.len() > 0 by {}
                assert forall|j: int| 0 <= j < i + 1 implies exists|g: int| 0 <= g < scenes@.len() && scenes@[g]@ == #[trigger] kv[j] && members@[g]@.contains(j as usize) by {
                    if j == i {
                        assert(members@[p as int]@[mv.len() as int] == i);
                        assert(scenes@[p as int]@ == kv[j]);
                    } else {
                        let g = choose|g: int| 0 <= g < old_scenes.len() && old_scenes[g]@ == kv[j] && old_members[g]@.contains(j as usize);
                        if g == p {
                            let a = choose|a: int| 0 <= a < mv.len() && mv[a] == j as usize;
                            assert(members@[g]@[a] == j as usize);
                        }
                        assert(members@[g]@.contains(j as usize));
                    }
                }
            }
        } else {
            let scene = key.clone();
            proof {
                if p < scenes.len() {
                    lemma_lex_order(scenes@[p as int]@, key@, key@);
                    assert(lex_lt(key@, scenes@[p as int]@));
                }
            }
            scenes.insert(p, scene);
            let mut fresh: Vec<usize> = Vec::new();
            fresh.push(i);
            members.insert(p, fresh);
            proof {
                assert(scenes@[p as int]@ == key@);
                assert forall|g1: int, g2: int| 0 <= g1 < g2 < scenes@.len() implies lex_lt(#[trigger] scenes@[g1]@, #[trigger] scenes@[g2]@) by {
                    let o1 = if g1 < p { g1 } else { g1 - 1 };
                    let o2 = if g2 < p { g2 } else { g2 - 1 };
                    if g1 == p {
                        assert(scenes@[g2]@ == old_scenes[o2]@);
                        if o2 > p {
                            lemma_lex_order(key@, old_scenes[p as int]@, old_scenes[o2]@);
                        }
                    } else if g2 == p {
                        assert(scenes@[g1]@ == old_scenes[o1]@);
                    } else {
                        assert(scenes@[g1]@ == old_scenes[o1]@);
                        assert(scenes@[g2]@ == old_scenes[o2]@);
                    }
                }
                assert forall|g: int| 0 <= g < members@.len() implies (#[trigger] members@[g])@.len() > 0 by {
                    if g < p {
                        assert(members@[g] == old_members[g]);
                    } else if g > p {
                        assert(members@[g] == old_members[g - 1]);
                    }
                }
                assert forall|g: int, a: int, b: int| 0 <= g < members@.len() && 0 <= a < b < members@[g]@.len() implies #[trigger] members@[g]@[a] < #[trigger] members@[g]@[b] by {
                    if g < p {
                        assert(members@[g] == old_members[g]);
                    } else if g > p {
                        assert(members@[g] == old_members[g - 1]);
                    }
                }
                assert forall|g: int, a: int| 0 <= g < members@.len() && 0 <= a < members@[g]@.len() implies #[trigger] members@[g]@[a] < i + 1 && kv[members@[g]@[a] as int] == scenes@[g]@ by {
                    if g < p {
                        assert(members@[g] == old_members[g]);
                        assert(scenes@[g] == old_scenes[g]);
                    } else if g > p {
                        assert(members@[g] == old_members[g - 1]);
                        assert(scenes@[g] == old_scenes[g - 1]);
                    }
                }
                assert forall|j: int| 0 <= j < i + 1 implies exists|g: int| 0 <= g < scenes@.len() && scenes@[g]@ == #[trigger] kv[j] && members@[g]@.contains(j as usize) by {
                    if j == i {
                        assert(members@[p as int]@[0] == i);
                    } else {
                        let g = choose|g: int| 0 <= g < old_scenes.len() && old_scenes[g]@ == kv[j] && old_members[g]@.contains(j as usize);
                        if g < p {
                            assert(scenes@[g] == old_scenes[g] && members@[g] == old_members[g]);
                        } else {
                            assert(scenes@[g + 1] == old_scenes[g] && members@[g + 1] == old_members[g]);
                        }
                    }
                }
            }
        }
        i = i + 1;
    }
    (scenes, members)
}

} // verus!
