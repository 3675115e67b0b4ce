use vstd::prelude::*;
use crate::config::WhichAttributes;
use crate::device::pairs_view;
use crate::xml::{AttrEntry, AttrEntryV, AttrKind, block_view, entry_view, strings_view};

verus! {

/// The segments of a name between `/` separators, empty ones included.
pub open spec fn segments(s: Seq<char>) -> Seq<Seq<char>>
    decreases s.len(),
{
    if s.len() == 0 {
        seq![Seq::empty()]
    } else {
        let r = segments(s.drop_last());
        if s.last() == '/' {
            r.push(Seq::empty())
        } else {
            r.update(r.len() - 1, r.last().push(s.last()))
        }
    }
}

pub open spec fn dot() -> Seq<char> {
    seq!['.']
}

pub open spec fn dot_dot() -> Seq<char> {
    seq!['.', '.']
}

/// The segments that make path components: all but the empty ones and `.`.
pub open spec fn keep(raw: Seq<Seq<char>>) -> Seq<Seq<char>>
    decreases raw.len(),
{
    if raw.len() == 0 {
        seq![]
    } else {
        let r = keep(raw.drop_last());
        if raw.last().len() > 0 && raw.last() != dot() {
            r.push(raw.last())
        } else {
            r
        }
    }
}

/// A `..` segment, or a leading `.` segment.
pub open spec fn bad_segment(raw: Seq<Seq<char>>) -> bool
    decreases raw.len(),
{
    if raw.len() == 0 {
        false
    } else {
        bad_segment(raw.drop_last()) || raw.last() == dot_dot() || (raw.len() == 1 && raw.last()
            == dot())
    }
}

/// An attribute name that does not read as a relative path of plain
/// components: it is absolute, starts with a `.` component, or holds a `..`
/// component. The tree cannot name the `attr` elements of such a path.
pub open spec fn path_refused(name: Seq<char>) -> bool {
    let raw = segments(name);
    (raw.len() > 1 && raw[0].len() == 0) || bad_segment(raw)
}

/// The components of an attribute path.
pub open spec fn components(name: Seq<char>) -> Seq<Seq<char>> {
    keep(segments(name))
}

/// The index of the first `attr` element of the block that stands for
/// `path`, from position `i` on; -1 when there is none.
pub open spec fn find_from(b: Seq<AttrEntryV>, path: Seq<Seq<char>>, i: int) -> int
    decreases b.len() - i,
{
    if i < 0 || i >= b.len() {
        -1
    } else if b[i].kind == AttrKind::Attr && b[i].path == path {
        i
    } else {
        find_from(b, path, i + 1)
    }
}

pub open spec fn path_index(b: Seq<AttrEntryV>, path: Seq<Seq<char>>) -> int {
    find_from(b, path, 0)
}


/// The index found is -1 or that of a matching `attr` element.
pub proof fn lemma_find_from(b: Seq<AttrEntryV>, path: Seq<Seq<char>>, i: int)
    requires
        0 <= i,
    ensures
        find_from(b, path, i) == -1 || (i <= find_from(b, path, i) < b.len() && b[find_from(b, path, i)].kind
            == AttrKind::Attr && b[find_from(b, path, i)].path == path),
    decreases b.len() - i,
{
    if i < b.len() && !(b[i].kind == AttrKind::Attr && b[i].path == path) {
        lemma_find_from(b, path, i + 1);
    }
}

/// The length of the longest prefix of `comps`, no longer than `k`, that
/// already has an `attr` element (0 stands for the device itself).
pub open spec fn found_len(b: Seq<AttrEntryV>, comps: Seq<Seq<char>>, k: int) -> int
    decreases k,
{
    if k <= 0 {
        0
    } else if path_index(b, comps.take(k)) >= 0 {
        k
    } else {
        found_len(b, comps, k - 1)
    }
}

/// The `attr` elements created for the components past the `j` that exist:
/// one per missing prefix, outermost first, each inside the previous one,
/// the innermost holding the value.
pub open spec fn new_entries(b: Seq<AttrEntryV>, comps: Seq<Seq<char>>, j: int, value: Seq<char>) -> Seq<AttrEntryV> {
    Seq::new(
        (comps.len() - j) as nat,
        |m: int|
            {
                let k = j + 1 + m;
                AttrEntryV {
                    kind: AttrKind::Attr,
                    name: comps[k - 1],
                    value: if k == comps.len() {
                        Some(value)
                    } else {
                        None
                    },
                    parent: if k == 1 {
                        None
                    } else if m == 0 {
                        Some(path_index(b, comps.take(j)) as usize)
                    } else {
                        Some((b.len() + m - 1) as usize)
                    },
                    path: comps.take(k),
                }
            },
    )
}

/// The block after adding the `attr` elements for one attribute path.
pub open spec fn tree_insert(b: Seq<AttrEntryV>, comps: Seq<Seq<char>>, value: Seq<char>) -> Seq<AttrEntryV> {
    let j = found_len(b, comps, comps.len() as int);
    if j == comps.len() {
        let i = path_index(b, comps);
        b.update(i, AttrEntryV { value: Some(value), ..b[i] })
    } else {
        b + new_entries(b, comps, j, value)
    }
}

/// The block after one device attribute: its `attr` elements, then its
/// `attr-path` element.
pub open spec fn block_step(b: Seq<AttrEntryV>, name: Seq<char>, value: Seq<char>, which: WhichAttributes) -> Seq<AttrEntryV> {
    let b1 = if which.has_tree() && components(name).len() > 0 {
        tree_insert(b, components(name), value)
    } else {
        b
    };
    if which.has_paths() {
        b1.push(
            AttrEntryV {
                kind: AttrKind::AttrPath,
                name,
                value: Some(value),
                parent: None,
                path: seq![],
            },
        )
    } else {
        b1
    }
}

/// The attribute elements of a device with the given attributes, in
/// document order of creation.
pub open spec fn attr_block(attrs: Seq<(Seq<char>, Seq<char>)>, which: WhichAttributes) -> Seq<AttrEntryV>
    decreases attrs.len(),
{
    if attrs.len() == 0 {
        seq![]
    } else {
        block_step(attr_block(attrs.drop_last(), which), attrs.last().0, attrs.last().1, which)
    }
}

/// The values that land on the device element itself: those of attributes
/// whose path has no component, in the tree layout.
pub open spec fn device_values(attrs: Seq<(Seq<char>, Seq<char>)>, which: WhichAttributes) -> Seq<Seq<char>>
    decreases attrs.len(),
{
    if attrs.len() == 0 {
        seq![]
    } else {
        let r = device_values(attrs.drop_last(), which);
        if which.has_tree() && components(attrs.last().0).len() == 0 {
            r.push(attrs.last().1)
        } else {
            r
        }
    }
}

/// Every attribute name can be laid out by the chosen layout.
pub open spec fn attrs_ok(attrs: Seq<(Seq<char>, Seq<char>)>, which: WhichAttributes) -> bool {
    which.has_tree() ==> forall|i: int| 0 <= i < attrs.len() ==> !path_refused(#[trigger] attrs[i].0)
}


fn is_dot(seg: &str) -> (r: bool)
    ensures
        r == (seg@ == dot()),
{
    if seg.unicode_len() == 1 {
        let c = seg.get_char(0);
        if c == '.' {
            assert(seg@ =~= dot());
            true
        } else {
            false
        }
    } else {
        false
    }
}

fn is_dot_dot(seg: &str) -> (r: bool)
    ensures
        r == (seg@ == dot_dot()),
{
    if seg.unicode_len() == 2 {
        let c0 = seg.get_char(0);
        let c1 = seg.get_char(1);
        if c0 == '.' && c1 == '.' {
            assert(seg@ =~= dot_dot());
            true
        } else {
            false
        }
    } else {
        false
    }
}

/// Splits an attribute name into path components; nothing when the name
/// cannot be laid out as a relative path.
pub fn split_path(name: &str) -> (r: Option<Vec<String>>)
    ensures
        r is None <==> path_refused(name@),
        r matches Some(c) ==> strings_view(c@) == components(name@),
{
    let n = name.unicode_len();
    let ghost s = name@;
    let mut comps: Vec<String> = Vec::new();
    let mut bad = false;
    let mut first_empty = false;
    let mut nraw: usize = 0;
    let mut start: usize = 0;
    let mut i: usize = 0;
    let ghost mut raw: Seq<Seq<char>> = seq![];
    proof {
        assert(s.take(0) =~= Seq::<char>::empty());
        assert(s.subrange(0, 0) =~= Seq::<char>::empty());
        assert(segments(s.take(0)) =~= raw.push(s.subrange(0, 0)));
    }
    while i < n
        invariant
            n == s.len(),
            s == name@,
            start <= i <= n,
            nraw == raw.len(),
            nraw <= i,
            segments(s.take(i as int)) == raw.push(s.subrange(start as int, i as int)),
            strings_view(comps@) == keep(raw),
            bad == bad_segment(raw),
            raw.len() >= 1 ==> first_empty == (raw[0].len() == 0),
        decreases n - i,
    {
        let c = name.get_char(i);
        proof {
            assert(s.take(i + 1).drop_last() =~= s.take(i as int));
            assert(s.take(i + 1).last() == c);
        }
        if c == '/' {
            let seg = name.substring_char(start, i);
            let ghost old_raw = raw;
            proof {
                raw = raw.push(seg@);
                assert(raw.drop_last() =~= old_raw);
            }
            if nraw == 0 {
                first_empty = seg.unicode_len() == 0;
            }
            if is_dot_dot(seg) || (nraw == 0 && is_dot(seg)) {
                bad = true;
            }
            if seg.unicode_len() > 0 && !is_dot(seg) {
                let owned = seg.to_owned();
                comps.push(owned);
                proof {
                    assert(strings_view(comps@) =~= keep(old_raw).push(seg@));
                }
            }
            nraw = nraw + 1;
            start = i + 1;
            proof {
                assert(s.subrange(start as int, start as int) =~= Seq::<char>::empty());
                assert(segments(s.take(i + 1)) =~= raw.push(s.subrange(start as int, (i + 1) as int)));
            }
        } else {
            proof {
                assert(s.subrange(start as int, i + 1) =~= s.subrange(start as int, i as int).push(c));
                assert(segments(s.take(i + 1)) =~= raw.push(s.subrange(start as int, (i + 1) as int)));
            }
        }
        i = i + 1;
    }
    let seg = name.substring_char(start, n);
    let ghost old_raw = raw;
    proof {
        raw = raw.push(seg@);
        assert(raw.drop_last() =~= old_raw);
        assert(s.take(n as int) =~= s);
        assert(segments(s) == raw);
    }
    if nraw == 0 {
        first_empty = seg.unicode_len() == 0;
    }
    if is_dot_dot(seg) || (nraw == 0 && is_dot(seg)) {
        bad = true;
    }
    if seg.unicode_len() > 0 && !is_dot(seg) {
        let owned = seg.to_owned();
        comps.push(owned);
        proof {
            assert(strings_view(comps@) =~= keep(old_raw).push(seg@));
        }
    }
    if (nraw >= 1 && first_empty) || bad {
        None
    } else {
        Some(comps)
    }
}


/// Whether the entry stands for the first `k` components.
fn entry_has_path(e: &AttrEntry, comps: &Vec<String>, k: usize) -> (r: bool)
    requires
        k <= comps.len(),
    ensures
        r == (entry_view(*e).kind == AttrKind::Attr && entry_view(*e).path == strings_view(comps@).take(k as int)),
{
    if e.kind != AttrKind::Attr {
        return false;
    }
    if e.path.len() != k {
        assert(strings_view(e.path@).len() != strings_view(comps@).take(k as int).len());
        return false;
    }
    let mut i: usize = 0;
    while i < k
        invariant
            k <= comps.len(),
            e.path.len() == k,
            i <= k,
            forall|j: int| 0 <= j < i ==> e.path@[j]@ == comps@[j]@,
        decreases k - i,
    {
        if e.path[i] != comps[i] {
            assert(strings_view(e.path@)[i as int] != strings_view(comps@).take(k as int)[i as int]);
            return false;
        }
        i = i + 1;
    }
    assert(strings_view(e.path@) =~= strings_view(comps@).take(k as int));
    true
}

/// The index of the `attr` element that stands for the first `k`
/// components.
fn find_path(b: &Vec<AttrEntry>, comps: &Vec<String>, k: usize) -> (r: Option<usize>)
    requires
        k <= comps.len(),
    ensures
        match r {
            Some(i) => path_index(block_view(b@), strings_view(comps@).take(k as int)) == i,
            None => path_index(block_view(b@), strings_view(comps@).take(k as int)) == -1,
        },
{
    let ghost bv = block_view(b@);
    let ghost p = strings_view(comps@).take(k as int);
    let mut i: usize = 0;
    while i < b.len()
        invariant
            bv == block_view(b@),
            k <= comps.len(),
            p == strings_view(comps@).take(k as int),
            i <= b.len(),
            find_from(bv, p, 0) == find_from(bv, p, i as int),
        decreases b.len() - i,
    {
        if entry_has_path(&b[i], comps, k) {
            return Some(i);
        }
        i = i + 1;
    }
    None
}

/// Adds the `attr` elements for one attribute path to the block.
fn tree_insert_exec(b: &mut Vec<AttrEntry>, comps: &Vec<String>, value: &String)
    requires
        comps.len() > 0,
    ensures
        block_view(final(b)@) == tree_insert(block_view(old(b)@), strings_view(comps@), value@),
{
    let ghost bv = block_view(b@);
    let ghost cv = strings_view(comps@);
    let len = comps.len();
    let mut k: usize = len;
    let mut found: Option<usize> = None;
    while k > 0
        invariant_except_break
            found is None,
        invariant
            bv == block_view(b@),
            cv == strings_view(comps@),
            len == comps.len(),
            k <= len,
            found_len(bv, cv, len as int) == found_len(bv, cv, k as int),
        ensures
            found is None ==> k == 0,
            found matches Some(i) ==> k > 0 && path_index(bv, cv.take(k as int)) == i,
        decreases k,
    {
        match find_path(b, comps, k) {
            Some(i) => {
                found = Some(i);
                break;
            },
            None => {},
        }
        k = k - 1;
    }
    let ghost j = found_len(bv, cv, len as int);
    proof {
        assert(cv.len() == len);
        if found is Some {
            assert(j == k);
        } else {
            assert(j == 0);
        }
    }
    if k == len {
        let i = found.unwrap();
        proof {
            assert(cv.take(len as int) =~= cv);
            lemma_find_from(bv, cv, 0);
        }
        b[i].value = Some(value.clone());
        proof {
            assert(block_view(b@) =~= tree_insert(bv, cv, value@));
        }
    } else {
        let base = b.len();
        let ghost entries = new_entries(bv, cv, j, value@);
        let mut t: usize = 0;
        let mut prev: Option<usize> = found;
        while t < len - k
            invariant
                bv == block_view(old(b)@),
                cv == strings_view(comps@),
                len == comps.len(),
                j == k,
                k < len,
                t <= len - k,
                base == old(b)@.len(),
                b@.len() == base + t,
                block_view(b@) == bv + entries.take(t as int),
                entries == new_entries(bv, cv, j, value@),
                t == 0 ==> prev == found,
                k == 0 ==> found is None,
                k > 0 ==> found is Some && path_index(bv, cv.take(k as int)) == found.unwrap(),
                t > 0 ==> prev == Some((b@.len() - 1) as usize),
            decreases len - k - t,
        {
            let m = k + 1 + t;
            let mut path: Vec<String> = Vec::new();
            let mut q: usize = 0;
            while q < m
                invariant
                    m <= len,
                    len == comps.len(),
                    q <= m,
                    path@.len() == q,
                    forall|t: int| 0 <= t < q ==> path@[t]@ == comps@[t]@,
                decreases m - q,
            {
                path.push(comps[q].clone());
                q = q + 1;
            }
            proof {
                assert(strings_view(path@) =~= cv.take(m as int));
            }
            let entry_value = if m == len {
                Some(value.clone())
            } else {
                None
            };
            let parent = if m == 1 {
                None
            } else {
                prev
            };
            let e = AttrEntry {
                kind: AttrKind::Attr,
                name: comps[m - 1].clone(),
                value: entry_value,
                parent,
                path,
            };
            let ghost old_bv = block_view(b@);
            let idx = b.len();
            b.push(e);
            proof {
                let mm = t as int;
                assert(entry_view(e) == entries[mm]);
                assert(block_view(b@) =~= old_bv.push(entry_view(e)));
                assert(entries.take(mm + 1) =~= entries.take(mm).push(entries[mm]));
            }
            prev = Some(idx);
            t = t + 1;
        }
        proof {
            assert(entries.take((len - k) as int) =~= entries);
        }
    }
}

/// Lays out the attributes of a device: its attribute elements, and the
/// values that land on the device element itself.
pub fn build_attr_block(attrs: &Vec<(String, String)>, which: WhichAttributes) -> (r: (Vec<AttrEntry>, Vec<String>))
    requires
        attrs_ok(pairs_view(attrs@), which),
    ensures
        block_view(r.0@) == attr_block(pairs_view(attrs@), which),
        strings_view(r.1@) == device_values(pairs_view(attrs@), which),
{
    let ghost av = pairs_view(attrs@);
    let mut block: Vec<AttrEntry> = Vec::new();
    let mut values: Vec<String> = Vec::new();
    let mut i: usize = 0;
    proof {
        assert(av.take(0) =~= Seq::<(Seq<char>, Seq<char>)>::empty());
        assert(block_view(block@) =~= Seq::<AttrEntryV>::empty());
        assert(strings_view(values@) =~= Seq::<Seq<char>>::empty());
    }
    while i < attrs.len()
        invariant
            av == pairs_view(attrs@),
            attrs_ok(av, which),
            i <= attrs.len(),
            block_view(block@) == attr_block(av.take(i as int), which),
            strings_view(values@) == device_values(av.take(i as int), which),
        decreases attrs.len() - i,
    {
        proof {
            assert(av.take(i + 1).drop_last() =~= av.take(i as int));
            assert(av.take(i + 1).last() == av[i as int]);
        }
        let name = &attrs[i].0;
        let value = &attrs[i].1;
        if which == WhichAttributes::Tree || which == WhichAttributes::Both {
            proof {
                assert(!path_refused(av[i as int].0));
            }
            match split_path(name.as_str()) {
                Some(comps) => {
                    if comps.len() > 0 {
                        tree_insert_exec(&mut block, &comps, value);
                    } else {
                        values.push(value.clone());
                        proof {
                            assert(strings_view(values@) =~= device_values(av.take(i as int), which).push(av[i as int].1));
                        }
                    }
                },
                None => {},
            }
        }
        if which == WhichAttributes::ByPath || which == WhichAttributes::Both {
            let e = AttrEntry {
                kind: AttrKind::AttrPath,
                name: name.clone(),
                value: Some(value.clone()),
                parent: None,
                path: Vec::new(),
            };
            let ghost before = block_view(block@);
            block.push(e);
            proof {
                assert(entry_view(e).path =~= Seq::<Seq<char>>::empty());
                assert(block_view(block@) =~= before.push(entry_view(e)));
            }
        }
        i = i + 1;
    }
    proof {
        assert(av.take(attrs.len() as int) =~= av);
    }
    (block, values)
}

/// Whether every attribute name of a device can be laid out.
pub fn attrs_laid_out(attrs: &Vec<(String, String)>, which: WhichAttributes) -> (r: bool)
    ensures
        r == attrs_ok(pairs_view(attrs@), which),
{
    if !(which == WhichAttributes::Tree || which == WhichAttributes::Both) {
        return true;
    }
    let ghost av = pairs_view(attrs@);
    let mut i: usize = 0;
    while i < attrs.len()
        invariant
            av == pairs_view(attrs@),
            which.has_tree(),
            i <= attrs.len(),
            forall|j: int| 0 <= j < i ==> !path_refused(#[trigger] av[j].0),
        decreases attrs.len() - i,
    {
        assert(av[i as int].0 == attrs@[i as int].0@);
        if split_path(attrs[i].0.as_str()).is_none() {
            return false;
        }
        i = i + 1;
    }
    true
}

/// The entry is an `attr` element that stands for `path`.
pub open spec fn stands_for(e: AttrEntryV, path: Seq<Seq<char>>) -> bool {
    e.kind == AttrKind::Attr && e.path == path
}

/// What the search from `s` finds: the first matching entry, or nothing
/// when no entry from `s` on matches.
proof fn lemma_find_from_props(b: Seq<AttrEntryV>, q: Seq<Seq<char>>, s: int)
    requires
        0 <= s,
    ensures
        find_from(b, q, s) == -1 ==> forall|t: int| s <= t < b.len() ==> !stands_for(#[trigger] b[t], q),
        find_from(b, q, s) >= 0 ==> {
            &&& s <= find_from(b, q, s) < b.len()
            &&& stands_for(b[find_from(b, q, s)], q)
            &&& forall|t: int| s <= t < find_from(b, q, s) ==> !stands_for(#[trigger] b[t], q)
        },
    decreases b.len() - s,
{
    if s < b.len() && !stands_for(b[s], q) {
        lemma_find_from_props(b, q, s + 1);
    }
}

/// The first matching entry from `s` on is what the search finds.
proof fn lemma_find_from_first(b: Seq<AttrEntryV>, q: Seq<Seq<char>>, s: int, p: int)
    requires
        0 <= s <= p < b.len(),
        stands_for(b[p], q),
        forall|t: int| s <= t < p ==> !stands_for(#[trigger] b[t], q),
    ensures
        find_from(b, q, s) == p,
    decreases p - s,
{
    if s < p {
        lemma_find_from_first(b, q, s + 1, p);
    }
}

/// Adding the elements of one attribute path gives that path an `attr`
/// element with the value.
proof fn lemma_tree_insert_sets(b: Seq<AttrEntryV>, comps: Seq<Seq<char>>, v: Seq<char>)
    requires
        comps.len() > 0,
    ensures
        ({
            let b1 = tree_insert(b, comps, v);
            let p = path_index(b1, comps);
            &&& 0 <= p < b1.len()
            &&& stands_for(b1[p], comps)
            &&& b1[p].value == Some(v)
        }),
{
    let len = comps.len() as int;
    let j = found_len(b, comps, len);
    assert(comps.take(len) =~= comps);
    lemma_find_from_props(b, comps, 0);
    lemma_found_len_full(b, comps);
    if j == len {
        let i = path_index(b, comps);
        let b1 = b.update(i, AttrEntryV { value: Some(v), ..b[i] });
        assert forall|t: int| 0 <= t < i implies !stands_for(#[trigger] b1[t], comps) by {
            assert(b1[t] == b[t]);
        }
        lemma_find_from_first(b1, comps, 0, i);
    } else {
        lemma_find_from(b, comps, 0);
        assert(path_index(b, comps) == -1);
        let n = new_entries(b, comps, j, v);
        let b1 = b + n;
        let p = b.len() + (len - j - 1);
        assert(0 <= j < len) by {
            lemma_found_len_range(b, comps, len);
        }
        assert(b1[p] == n[len - j - 1]);
        assert forall|t: int| 0 <= t < p implies !stands_for(#[trigger] b1[t], comps) by {
            if t < b.len() {
                assert(b1[t] == b[t]);
                assert(!stands_for(b[t], comps));
            } else {
                let m = t - b.len();
                assert(b1[t] == n[m]);
                assert(n[m].path == comps.take(j + 1 + m));
                assert(comps.take(j + 1 + m).len() == j + 1 + m);
                assert(n[m].path.len() != comps.len());
            }
        }
        lemma_find_from_first(b1, comps, 0, p);
    }
}

/// The whole path is found exactly when it already has an element.
proof fn lemma_found_len_full(b: Seq<AttrEntryV>, comps: Seq<Seq<char>>)
    requires
        comps.len() > 0,
    ensures
        0 <= found_len(b, comps, comps.len() as int) <= comps.len(),
        (found_len(b, comps, comps.len() as int) == comps.len()) == (path_index(b, comps) >= 0),
{
    let len = comps.len() as int;
    assert(comps.take(len) =~= comps);
    lemma_found_len_range(b, comps, len - 1);
}

proof fn lemma_found_len_range(b: Seq<AttrEntryV>, comps: Seq<Seq<char>>, k: int)
    ensures
        k >= 0 ==> 0 <= found_len(b, comps, k) <= k,
    decreases k,
{
    if k > 0 {
        lemma_found_len_range(b, comps, k - 1);
    }
}

/// Adding the elements of one attribute path leaves the element of any
/// other path where it was, with its value.
proof fn lemma_tree_insert_keeps(b: Seq<AttrEntryV>, comps: Seq<Seq<char>>, v: Seq<char>, q: Seq<Seq<char>>)
    requires
        comps.len() > 0,
        q != comps,
        path_index(b, q) >= 0,
    ensures
        path_index(tree_insert(b, comps, v), q) == path_index(b, q),
        tree_insert(b, comps, v)[path_index(b, q)] == b[path_index(b, q)],
{
    let len = comps.len() as int;
    let j = found_len(b, comps, len);
    let p0 = path_index(b, q);
    assert(comps.take(len) =~= comps);
    lemma_find_from_props(b, q, 0);
    lemma_find_from_props(b, comps, 0);
    lemma_found_len_full(b, comps);
    let b1 = tree_insert(b, comps, v);
    if j == len {
        let i = path_index(b, comps);
        assert(i != p0);
        assert forall|t: int| 0 <= t < p0 implies !stands_for(#[trigger] b1[t], q) by {
            if t != i {
                assert(b1[t] == b[t]);
            }
        }
        lemma_find_from_first(b1, q, 0, p0);
    } else {
        assert forall|t: int| 0 <= t < p0 implies !stands_for(#[trigger] b1[t], q) by {
            assert(b1[t] == b[t]);
        }
        assert(b1[p0] == b[p0]);
        lemma_find_from_first(b1, q, 0, p0);
    }
}

/// An element pushed after a block keeps the element that a path already
/// has.
proof fn lemma_push_keeps(b: Seq<AttrEntryV>, e: AttrEntryV, q: Seq<Seq<char>>)
    requires
        path_index(b, q) >= 0,
    ensures
        path_index(b.push(e), q) == path_index(b, q),
{
    lemma_find_from_props(b, q, 0);
    let p0 = path_index(b, q);
    let b1 = b.push(e);
    assert forall|t: int| 0 <= t < p0 implies !stands_for(#[trigger] b1[t], q) by {
        assert(b1[t] == b[t]);
    }
    lemma_find_from_first(b1, q, 0, p0);
}

/// In the tree layout, every attribute path has an `attr` element that
/// holds the value of the last attribute with that path.
pub proof fn law_tree_layout(attrs: Seq<(Seq<char>, Seq<char>)>, which: WhichAttributes, i: int)
    requires
        which.has_tree(),
        0 <= i < attrs.len(),
        components(attrs[i].0).len() > 0,
        forall|j: int| i < j < attrs.len() ==> components(#[trigger] attrs[j].0) != components(attrs[i].0),
    ensures
        ({
            let b = attr_block(attrs, which);
            let p = path_index(b, components(attrs[i].0));
            &&& 0 <= p < b.len()
            &&& b[p].kind == AttrKind::Attr
            &&& b[p].path == components(attrs[i].0)
            &&& b[p].value == Some(attrs[i].1)
        }),
    decreases attrs.len(),
{
    let q = components(attrs[i].0);
    let last = attrs.last();
    let rest = attrs.drop_last();
    let b0 = attr_block(rest, which);
    let b1 = if components(last.0).len() > 0 {
        tree_insert(b0, components(last.0), last.1)
    } else {
        b0
    };
    if i == attrs.len() - 1 {
        lemma_tree_insert_sets(b0, q, last.1);
    } else {
        assert(rest[i] == attrs[i]);
        assert forall|j: int| i < j < rest.len() implies components(#[trigger] rest[j].0) != components(rest[i].0) by {
            assert(rest[j] == attrs[j]);
        }
        law_tree_layout(rest, which, i);
        assert(components(last.0) != q);
        if components(last.0).len() > 0 {
            lemma_tree_insert_keeps(b0, components(last.0), last.1, q);
        }
    }
    lemma_find_from_props(b1, q, 0);
    if which.has_paths() {
        let e = AttrEntryV { kind: AttrKind::AttrPath, name: last.0, value: Some(last.1), parent: None, path: seq![] };
        lemma_push_keeps(b1, e, q);
        assert(b1.push(e)[path_index(b1, q)] == b1[path_index(b1, q)]);
    }
}

/// Element `i` of the block stands for a path of at least one component
/// and is named after its last one when it is an `attr` element; an `attr`
/// element for a path of one component, and an `attr-path` element, sits
/// on the device; any other `attr` element sits in an earlier `attr`
/// element that stands for its path without the last component.
pub open spec fn entry_nested(b: Seq<AttrEntryV>, i: int) -> bool {
    &&& b[i].kind == AttrKind::AttrPath ==> b[i].parent is None
    &&& b[i].kind == AttrKind::Attr ==> {
        &&& b[i].path.len() >= 1
        &&& b[i].name == b[i].path.last()
        &&& b[i].path.len() == 1 ==> b[i].parent is None
        &&& b[i].path.len() > 1 ==> {
            &&& b[i].parent is Some
            &&& b[i].parent.unwrap() < i
            &&& b[b[i].parent.unwrap() as int].kind == AttrKind::Attr
            &&& b[b[i].parent.unwrap() as int].path == b[i].path.drop_last()
        }
    }
}

/// Every element of the block is nested as `entry_nested` says.
pub open spec fn nested(b: Seq<AttrEntryV>) -> bool {
    forall|i: int| 0 <= i < b.len() ==> #[trigger] entry_nested(b, i)
}

/// A prefix found for the path has an `attr` element.
proof fn lemma_found_len_found(b: Seq<AttrEntryV>, comps: Seq<Seq<char>>, k: int)
    requires
        found_len(b, comps, k) > 0,
    ensures
        path_index(b, comps.take(found_len(b, comps, k))) >= 0,
    decreases k,
{
    if k > 0 && path_index(b, comps.take(k)) < 0 {
        lemma_found_len_found(b, comps, k - 1);
    }
}

/// Giving an element a new value keeps a block nested.
proof fn lemma_set_value_nested(b: Seq<AttrEntryV>, i: int, v: Seq<char>)
    requires
        nested(b),
        0 <= i < b.len(),
    ensures
        nested(b.update(i, AttrEntryV { value: Some(v), ..b[i] })),
{
    let b1 = b.update(i, AttrEntryV { value: Some(v), ..b[i] });
    assert forall|t: int| 0 <= t < b1.len() implies #[trigger] entry_nested(b1, t) by {
        assert(entry_nested(b, t));
        assert(b[t].kind == b1[t].kind && b[t].path == b1[t].path && b[t].parent == b1[t].parent && b[t].name == b1[t].name);
        if b[t].kind == AttrKind::Attr && b[t].path.len() > 1 {
            let q = b[t].parent.unwrap() as int;
            assert(b[q].kind == b1[q].kind && b[q].path == b1[q].path);
        }
    }
}

/// Appending the elements for the components past the `j` found keeps a
/// block nested.
proof fn lemma_new_entries_nested(b: Seq<AttrEntryV>, comps: Seq<Seq<char>>, j: int, v: Seq<char>)
    requires
        nested(b),
        0 <= j < comps.len(),
        j > 0 ==> path_index(b, comps.take(j)) >= 0,
        b.len() + comps.len() - j <= usize::MAX,
    ensures
        nested(b + new_entries(b, comps, j, v)),
{
    let ne = new_entries(b, comps, j, v);
    let b1 = b + ne;
    if j > 0 {
        lemma_find_from_props(b, comps.take(j), 0);
    }
    assert forall|t: int| 0 <= t < b1.len() implies #[trigger] entry_nested(b1, t) by {
        if t < b.len() {
            assert(entry_nested(b, t));
            assert(b1[t] == b[t]);
            if b[t].kind == AttrKind::Attr && b[t].path.len() > 1 {
                let q = b[t].parent.unwrap() as int;
                assert(b1[q] == b[q]);
            }
        } else {
            let m = t - b.len();
            let k = j + 1 + m;
            assert(b1[t] == ne[m]);
            assert(ne[m].path == comps.take(k));
            assert(comps.take(k).last() == comps[k - 1]);
            if k > 1 {
                assert(comps.take(k).drop_last() =~= comps.take(k - 1));
                if m == 0 {
                    let q = path_index(b, comps.take(j));
                    assert(b1[q] == b[q]);
                } else {
                    assert(b1[t - 1] == ne[m - 1]);
                }
            }
        }
    }
}

/// Adding the elements of one attribute path keeps a block nested.
proof fn lemma_tree_insert_nested(b: Seq<AttrEntryV>, comps: Seq<Seq<char>>, v: Seq<char>)
    requires
        nested(b),
        comps.len() > 0,
        tree_insert(b, comps, v).len() <= usize::MAX,
    ensures
        nested(tree_insert(b, comps, v)),
{
    let len = comps.len() as int;
    let j = found_len(b, comps, len);
    lemma_found_len_full(b, comps);
    if j == len {
        lemma_find_from_props(b, comps, 0);
        lemma_set_value_nested(b, path_index(b, comps), v);
    } else {
        if j > 0 {
            lemma_found_len_found(b, comps, len);
        }
        lemma_new_entries_nested(b, comps, j, v);
    }
}

/// The attribute elements of any device are nested as their paths are:
/// the element of a path of several components sits in the element of its
/// path without the last component (for any block that fits in memory).
pub proof fn law_attr_nesting(attrs: Seq<(Seq<char>, Seq<char>)>, which: WhichAttributes)
    requires
        attr_block(attrs, which).len() <= usize::MAX,
    ensures
        nested(attr_block(attrs, which)),
    decreases attrs.len(),
{
    if attrs.len() > 0 {
        let last = attrs.last();
        let b0 = attr_block(attrs.drop_last(), which);
        let comps = components(last.0);
        let b1 = if which.has_tree() && comps.len() > 0 {
            tree_insert(b0, comps, last.1)
        } else {
            b0
        };
        if which.has_tree() && comps.len() > 0 {
            lemma_found_len_full(b0, comps);
            let j = found_len(b0, comps, comps.len() as int);
            lemma_find_from_props(b0, comps, 0);
            if j != comps.len() {
                assert(b1.len() == b0.len() + new_entries(b0, comps, j, last.1).len());
            }
        }
        assert(b0.len() <= b1.len());
        law_attr_nesting(attrs.drop_last(), which);
        if which.has_tree() && comps.len() > 0 {
            lemma_tree_insert_nested(b0, comps, last.1);
        }
        if which.has_paths() {
            let e = AttrEntryV { kind: AttrKind::AttrPath, name: last.0, value: Some(last.1), parent: None, path: seq![] };
            let b2 = b1.push(e);
            assert forall|t: int| 0 <= t < b2.len() implies #[trigger] entry_nested(b2, t) by {
                if t < b1.len() {
                    assert(entry_nested(b1, t));
                    assert(b2[t] == b1[t]);
                    if b1[t].kind == AttrKind::Attr && b1[t].path.len() > 1 {
                        assert(b2[b1[t].parent.unwrap() as int] == b1[b1[t].parent.unwrap() as int]);
                    }
                }
            }
        }
    }
}

/// No two `attr` elements of the block stand for the same path.
pub open spec fn paths_unique(b: Seq<AttrEntryV>) -> bool {
    forall|x: int, y: int| #![trigger b[x], b[y]]
        0 <= x < y < b.len() && b[x].kind == AttrKind::Attr && b[y].kind == AttrKind::Attr ==> b[x].path != b[y].path
}

/// No prefix longer than the one found has an `attr` element.
proof fn lemma_found_len_longest(b: Seq<AttrEntryV>, comps: Seq<Seq<char>>, k: int, q: int)
    requires
        found_len(b, comps, k) < q <= k,
    ensures
        path_index(b, comps.take(q)) < 0,
    decreases k,
{
    if q < k {
        lemma_found_len_longest(b, comps, k - 1, q);
    }
}

/// Adding the elements of one attribute path keeps each path on one
/// element at most.
proof fn lemma_tree_insert_unique(b: Seq<AttrEntryV>, comps: Seq<Seq<char>>, v: Seq<char>)
    requires
        paths_unique(b),
        comps.len() > 0,
    ensures
        paths_unique(tree_insert(b, comps, v)),
{
    let len = comps.len() as int;
    let j = found_len(b, comps, len);
    lemma_found_len_full(b, comps);
    let b1 = tree_insert(b, comps, v);
    if j == len {
        lemma_find_from_props(b, comps, 0);
        assert forall|x: int, y: int| #![trigger b1[x], b1[y]]
            0 <= x < y < b1.len() && b1[x].kind == AttrKind::Attr && b1[y].kind == AttrKind::Attr
            implies b1[x].path != b1[y].path by {
            assert(b[x].kind == b1[x].kind && b[x].path == b1[x].path);
            assert(b[y].kind == b1[y].kind && b[y].path == b1[y].path);
        }
    } else {
        let ne = new_entries(b, comps, j, v);
        assert forall|x: int, y: int| #![trigger b1[x], b1[y]]
            0 <= x < y < b1.len() && b1[x].kind == AttrKind::Attr && b1[y].kind == AttrKind::Attr
            implies b1[x].path != b1[y].path by {
            if y >= b.len() {
                let my = y - b.len();
                assert(b1[y] == ne[my]);
                assert(ne[my].path.len() == j + 1 + my);
                if x >= b.len() {
                    assert(b1[x] == ne[x - b.len()]);
                    assert(ne[x - b.len()].path.len() == j + 1 + (x - b.len()));
                } else {
                    assert(b1[x] == b[x]);
                    lemma_found_len_longest(b, comps, len, j + 1 + my);
                    lemma_find_from(b, comps.take(j + 1 + my), 0);
                    lemma_find_from_props(b, comps.take(j + 1 + my), 0);
                    assert(!stands_for(b[x], comps.take(j + 1 + my)));
                }
            } else {
                assert(b1[x] == b[x]);
                assert(b1[y] == b[y]);
            }
        }
    }
}

/// In the attribute elements of any device, each path has one `attr`
/// element at most: elements for a path that is already laid out are
/// reused, not made again.
pub proof fn law_attr_paths_unique(attrs: Seq<(Seq<char>, Seq<char>)>, which: WhichAttributes)
    ensures
        paths_unique(attr_block(attrs, which)),
    decreases attrs.len(),
{
    if attrs.len() > 0 {
        let last = attrs.last();
        let b0 = attr_block(attrs.drop_last(), which);
        let comps = components(last.0);
        law_attr_paths_unique(attrs.drop_last(), which);
        let b1 = if which.has_tree() && comps.len() > 0 {
            lemma_tree_insert_unique(b0, comps, last.1);
            tree_insert(b0, comps, last.1)
        } else {
            b0
        };
        if which.has_paths() {
            let e = AttrEntryV { kind: AttrKind::AttrPath, name: last.0, value: Some(last.1), parent: None, path: seq![] };
            let b2 = b1.push(e);
            assert forall|x: int, y: int| #![trigger b2[x], b2[y]]
                0 <= x < y < b2.len() && b2[x].kind == AttrKind::Attr && b2[y].kind == AttrKind::Attr
                implies b2[x].path != b2[y].path by {
                assert(b2[x] == b1[x]);
                assert(b2[y] == b1[y]);
            }
        }
    }
}

/// Every `attr` element with a value stands for the path of one of the
/// attributes, and holds that attribute's value.
pub open spec fn values_from(b: Seq<AttrEntryV>, attrs: Seq<(Seq<char>, Seq<char>)>) -> bool {
    forall|i: int| #![trigger b[i]]
        0 <= i < b.len() && b[i].kind == AttrKind::Attr && b[i].value is Some ==> exists|j: int|
            0 <= j < attrs.len() && components(#[trigger] attrs[j].0) == b[i].path && attrs[j].1 == b[i].value.unwrap()
}

/// Only the `attr` element of a whole attribute path holds a value, and
/// that value is one of the attribute's: the elements that stand for
/// mere prefixes of paths hold none of their own.
pub proof fn law_attr_values_from_attributes(attrs: Seq<(Seq<char>, Seq<char>)>, which: WhichAttributes)
    ensures
        values_from(attr_block(attrs, which), attrs),
    decreases attrs.len(),
{
    if attrs.len() > 0 {
        let last = attrs.last();
        let rest = attrs.drop_last();
        let n = attrs.len() - 1;
        let b0 = attr_block(rest, which);
        let comps = components(last.0);
        law_attr_values_from_attributes(rest, which);
        assert(attrs[n] == last);
        assert forall|j: int| 0 <= j < rest.len() implies #[trigger] attrs[j] == rest[j] by {}
        let b1 = if which.has_tree() && comps.len() > 0 {
            tree_insert(b0, comps, last.1)
        } else {
            b0
        };
        assert forall|i: int| #![trigger b1[i]]
            0 <= i < b1.len() && b1[i].kind == AttrKind::Attr && b1[i].value is Some implies exists|j: int|
                0 <= j < attrs.len() && components(#[trigger] attrs[j].0) == b1[i].path && attrs[j].1 == b1[i].value.unwrap() by {
            if which.has_tree() && comps.len() > 0 {
                let len = comps.len() as int;
                let jj = found_len(b0, comps, len);
                lemma_found_len_full(b0, comps);
                lemma_find_from_props(b0, comps, 0);
                if jj == len {
                    let p = path_index(b0, comps);
                    if i == p {
                        assert(components(attrs[n].0) == b1[i].path);
                    } else {
                        assert(b1[i] == b0[i]);
                        let j = choose|j: int| 0 <= j < rest.len() && components(#[trigger] rest[j].0) == b0[i].path
                            && rest[j].1 == b0[i].value.unwrap();
                        assert(attrs[j] == rest[j]);
                    }
                } else {
                    let ne = new_entries(b0, comps, jj, last.1);
                    if i >= b0.len() {
                        assert(b1[i] == ne[i - b0.len()]);
                        assert(comps.take(len) =~= comps);
                        assert(components(attrs[n].0) == b1[i].path);
                    } else {
                        assert(b1[i] == b0[i]);
                        let j = choose|j: int| 0 <= j < rest.len() && components(#[trigger] rest[j].0) == b0[i].path
                            && rest[j].1 == b0[i].value.unwrap();
                        assert(attrs[j] == rest[j]);
                    }
                }
            } else {
                let j = choose|j: int| 0 <= j < rest.len() && components(#[trigger] rest[j].0) == b0[i].path
                    && rest[j].1 == b0[i].value.unwrap();
                assert(attrs[j] == rest[j]);
            }
        }
        if which.has_paths() {
            let e = AttrEntryV { kind: AttrKind::AttrPath, name: last.0, value: Some(last.1), parent: None, path: seq![] };
            let b2 = b1.push(e);
            assert forall|i: int| #![trigger b2[i]]
                0 <= i < b2.len() && b2[i].kind == AttrKind::Attr && b2[i].value is Some implies exists|j: int|
                    0 <= j < attrs.len() && components(#[trigger] attrs[j].0) == b2[i].path && attrs[j].1 == b2[i].value.unwrap() by {
                assert(b2[i] == b1[i]);
            }
        }
    }
}

/// The `attr-path` elements of a block, in order, by name and value.
pub open spec fn path_entries(b: Seq<AttrEntryV>) -> Seq<(Seq<char>, Option<Seq<char>>)>
    decreases b.len(),
{
    if b.len() == 0 {
        seq![]
    } else {
        let r = path_entries(b.drop_last());
        if b.last().kind == AttrKind::AttrPath {
            r.push((b.last().name, b.last().value))
        } else {
            r
        }
    }
}

proof fn lemma_path_entries_update(b: Seq<AttrEntryV>, i: int, e: AttrEntryV)
    requires
        0 <= i < b.len(),
        b[i].kind == AttrKind::Attr,
        e.kind == AttrKind::Attr,
    ensures
        path_entries(b.update(i, e)) == path_entries(b),
    decreases b.len(),
{
    let b1 = b.update(i, e);
    if i < b.len() - 1 {
        assert(b1.drop_last() =~= b.drop_last().update(i, e));
        lemma_path_entries_update(b.drop_last(), i, e);
    } else {
        assert(b1.drop_last() =~= b.drop_last());
    }
}

proof fn lemma_path_entries_append(b: Seq<AttrEntryV>, n: Seq<AttrEntryV>)
    requires
        forall|t: int| 0 <= t < n.len() ==> (#[trigger] n[t]).kind == AttrKind::Attr,
    ensures
        path_entries(b + n) == path_entries(b),
    decreases n.len(),
{
    if n.len() == 0 {
        assert(b + n =~= b);
    } else {
        assert((b + n).drop_last() =~= b + n.drop_last());
        assert((b + n).last() == n.last());
        lemma_path_entries_append(b, n.drop_last());
    }
}

/// In the path layout, the `attr-path` elements are the attributes
/// themselves, one per attribute, in order, with their full names.
pub proof fn law_path_layout(attrs: Seq<(Seq<char>, Seq<char>)>, which: WhichAttributes)
    requires
        which.has_paths(),
    ensures
        path_entries(attr_block(attrs, which)) == attrs.map_values(
            |p: (Seq<char>, Seq<char>)| (p.0, Some(p.1)),
        ),
    decreases attrs.len(),
{
    if attrs.len() > 0 {
        let last = attrs.last();
        let rest = attrs.drop_last();
        law_path_layout(rest, which);
        let b0 = attr_block(rest, which);
        let comps = components(last.0);
        if which.has_tree() && comps.len() > 0 {
            let len = comps.len() as int;
            let j = found_len(b0, comps, len);
            assert(comps.take(len) =~= comps);
            lemma_found_len_full(b0, comps);
            if j == len {
                lemma_find_from_props(b0, comps, 0);
                let i = path_index(b0, comps);
                lemma_path_entries_update(b0, i, AttrEntryV { value: Some(last.1), ..b0[i] });
            } else {
                lemma_path_entries_append(b0, new_entries(b0, comps, j, last.1));
            }
        }
        let b1 = if which.has_tree() && comps.len() > 0 {
            tree_insert(b0, comps, last.1)
        } else {
            b0
        };
        let e = AttrEntryV { kind: AttrKind::AttrPath, name: last.0, value: Some(last.1), parent: None, path: seq![] };
        assert(b1.push(e).drop_last() =~= b1);
        assert(attrs.map_values(|p: (Seq<char>, Seq<char>)| (p.0, Some(p.1))) =~= rest.map_values(
            |p: (Seq<char>, Seq<char>)| (p.0, Some(p.1)),
        ).push((last.0, Some(last.1))));
    }
}

} // verus!
