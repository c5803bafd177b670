//! Concrete problem descriptions: constraints over labelled configurations,
//! their textual grammar, and the reachability diagram over labels.
//!
//! A problem is a pair of constraints.  A constraint is a list of lines; a
//! line is a list of parts; a part is a group of labels with a multiplicity —
//! a fixed count or a star.  The textual form writes one line per row, parts
//! separated by spaces, a group as its label characters, and a multiplicity
//! as `^n` or `*`; the active and the passive constraint are separated by an
//! empty row.
//!
//! While parsing, a line that is subsumed by another line of the same
//! constraint is discarded (see [`Line`] for the subsumption criterion), so
//! a parsed problem is already in a normalized form.

use vstd::prelude::*;
use vstd::multiset::Multiset;
use vstd::string::*;

verus! {

broadcast use vstd::std_specs::hash::group_hash_axioms;

/// The multiplicity of one part of a line: a fixed count or unbounded.
#[derive(Clone, Copy, PartialEq, Eq, Structural, Debug)]
pub enum GroupType {
    /// Exactly this many slots.
    Many(usize),
    /// Any number of slots.
    Star,
}

/// One part of a line: a set of label identifiers together with its
/// multiplicity.  The group is kept sorted and without duplicates.
pub struct Part {
    /// The labels a slot of this part may take, ascending.
    pub group: Vec<usize>,
    /// How many slots this part contributes.
    pub gtype: GroupType,
}

/// One configuration schema: an ordered list of parts, kept sorted by group.
pub struct Line {
    /// The parts of this line.
    pub parts: Vec<Part>,
}

/// A constraint: the lines that are allowed, none subsumed by another.
pub struct Constraint {
    /// The allowed lines.
    pub lines: Vec<Line>,
}

/// A combinatorial problem: an active and a passive constraint, a mapping
/// from label identifiers to their text, and the optional results of later
/// analyses, absent until computed.
pub struct Problem {
    pub active: Constraint,
    pub passive: Constraint,
    pub mapping_label_text: Vec<(usize, String)>,
    pub mapping_label_oldlabels: Option<Vec<(usize, Vec<usize>)>>,
    pub mapping_oldlabel_text: Option<Vec<(usize, String)>>,
    pub trivial_sets: Option<Vec<Vec<usize>>>,
    pub coloring_sets: Option<Vec<Vec<usize>>>,
    pub diagram_indirect: Option<Vec<(usize, usize)>>,
    pub diagram_indirect_old: Option<Vec<(usize, usize)>>,
    pub diagram_direct: Option<(Vec<(usize, Vec<usize>)>, Vec<(usize, usize)>)>,
}

/// Whether a sequence of label identifiers is strictly increasing.
pub open spec fn strictly_increasing(s: Seq<usize>) -> bool {
    forall|i: int, j: int| 0 <= i < j < s.len() ==> s[i] < s[j]
}

/// Whether a vector contains a value.
fn vec_contains(v: &Vec<usize>, x: usize) -> (r: bool)
    ensures
        r == v@.contains(x),
{
    let mut i: usize = 0;
    while i < v.len()
        invariant
            i <= v@.len(),
            forall|j: int| 0 <= j < i ==> v@[j] != x,
        decreases v@.len() - i,
    {
        if v[i] == x {
            return true;
        }
        i = i + 1;
    }
    false
}

/// Whether every label of `a` also occurs in `b`.
fn group_subset(a: &Vec<usize>, b: &Vec<usize>) -> (r: bool)
    ensures
        r == forall|x: usize| a@.contains(x) ==> b@.contains(x),
{
    let mut i: usize = 0;
    while i < a.len()
        invariant
            i <= a@.len(),
            forall|j: int| 0 <= j < i ==> b@.contains(a@[j]),
        decreases a@.len() - i,
    {
        if !vec_contains(b, a[i]) {
            return false;
        }
        i = i + 1;
    }
    true
}

/// Whether two groups hold exactly the same labels in the same order.
fn group_eq(a: &Vec<usize>, b: &Vec<usize>) -> (r: bool)
    ensures
        r == (a@ =~= b@),
{
    if a.len() != b.len() {
        return false;
    }
    let mut i: usize = 0;
    while i < a.len()
        invariant
            i <= a@.len(),
            a@.len() == b@.len(),
            forall|j: int| 0 <= j < i ==> a@[j] == b@[j],
        decreases a@.len() - i,
    {
        if a[i] != b[i] {
            return false;
        }
        i = i + 1;
    }
    true
}

/// A value copy of a part.
fn part_dup(p: &Part) -> (r: Part)
    ensures
        r.group@ == p.group@,
        r.gtype == p.gtype,
{
    let mut group: Vec<usize> = Vec::new();
    let mut i: usize = 0;
    while i < p.group.len()
        invariant
            i <= p.group@.len(),
            group@ =~= p.group@.take(i as int),
        decreases p.group@.len() - i,
    {
        group.push(p.group[i]);
        proof {
            assert(group@ =~= p.group@.take(i as int + 1));
        }
        i = i + 1;
    }
    proof {
        assert(p.group@.take(p.group@.len() as int) =~= p.group@);
    }
    Part { group, gtype: p.gtype }
}

/// A value copy of a line.
fn line_dup(l: &Line) -> (r: Line)
    ensures
        r.parts@.len() == l.parts@.len(),
        forall|i: int|
            0 <= i < l.parts@.len() ==> (#[trigger] r.parts@[i]).group@ == l.parts@[i].group@
                && r.parts@[i].gtype == l.parts@[i].gtype,
{
    let mut parts: Vec<Part> = Vec::new();
    let mut i: usize = 0;
    while i < l.parts.len()
        invariant
            i <= l.parts@.len(),
            parts@.len() == i,
            forall|j: int|
                0 <= j < i ==> (#[trigger] parts@[j]).group@ == l.parts@[j].group@
                    && parts@[j].gtype == l.parts@[j].gtype,
        decreases l.parts@.len() - i,
    {
        parts.push(part_dup(&l.parts[i]));
        i = i + 1;
    }
    Line { parts }
}

impl Line {
    /// The number of fixed slots of this line, saturating, together with
    /// whether the line holds any star part.
    fn arity(&self) -> (r: (u128, bool)) {
        let mut many: u128 = 0;
        let mut star: bool = false;
        let mut i: usize = 0;
        while i < self.parts.len()
            decreases self.parts@.len() - i,
        {
            match self.parts[i].gtype {
                GroupType::Many(k) => {
                    if many <= u128::MAX - (k as u128) {
                        many = many + (k as u128);
                    } else {
                        many = u128::MAX;
                    }
                },
                GroupType::Star => {
                    star = true;
                },
            }
            i = i + 1;
        }
        (many, star)
    }

    /// Whether this line subsumes `other`: every slot of `other` can be
    /// matched into a part of this line whose group contains its choices.
    ///
    /// The criterion is a capacity test on every subset of the other line's
    /// parts, together with arity agreement and star compatibility.  Lines
    /// with more than fifteen parts are never considered subsumed.
    pub fn includes(&self, other: &Line) -> (r: bool) {
        let n = other.parts.len();
        if n >= 16 {
            return false;
        }
        // Star compatibility: a star part of `other` needs a star part of
        // this line over a superset group.
        let mut i: usize = 0;
        while i < other.parts.len()
            decreases other.parts@.len() - i,
        {
            let q = &other.parts[i];
            let is_star = match q.gtype {
                GroupType::Star => true,
                GroupType::Many(_) => false,
            };
            if is_star {
                let mut covered: bool = false;
                let mut j: usize = 0;
                while j < self.parts.len()
                    decreases self.parts@.len() - j,
                {
                    let p = &self.parts[j];
                    let p_star = match p.gtype {
                        GroupType::Star => true,
                        GroupType::Many(_) => false,
                    };
                    if p_star && group_subset(&q.group, &p.group) {
                        covered = true;
                    }
                    j = j + 1;
                }
                if !covered {
                    return false;
                }
            }
            i = i + 1;
        }
        // Arity agreement.
        let (self_many, self_star) = self.arity();
        let (other_many, other_star) = other.arity();
        if !self_star {
            if other_star || self_many != other_many {
                return false;
            }
        } else {
            if self_many > other_many && !other_star {
                return false;
            }
        }
        // Capacity test on every non-empty subset of the other line's parts.
        let limit: usize = 1usize << n;
        let mut mask: usize = 1;
        while mask < limit
            invariant
                n == other.parts@.len(),
                n < 16,
            decreases limit - mask,
        {
            let mut demand: u128 = 0;
            let mut k: usize = 0;
            while k < n
                invariant
                    n == other.parts@.len(),
                    n < 16,
                decreases n - k,
            {
                if mask & (1usize << k) != 0 {
                    match other.parts[k].gtype {
                        GroupType::Many(c) => {
                            if demand <= u128::MAX - (c as u128) {
                                demand = demand + (c as u128);
                            } else {
                                demand = u128::MAX;
                            }
                        },
                        GroupType::Star => {
                        },
                    }
                }
                k = k + 1;
            }
            let mut cap: u128 = 0;
            let mut cap_star: bool = false;
            let mut j: usize = 0;
            while j < self.parts.len()
                invariant
                    n == other.parts@.len(),
                    n < 16,
                decreases self.parts@.len() - j,
            {
                let p = &self.parts[j];
                let mut compatible: bool = false;
                let mut k2: usize = 0;
                while k2 < n
                    invariant
                        n == other.parts@.len(),
                        n < 16,
                        0 <= j < self.parts@.len(),
                    decreases n - k2,
                {
                    if mask & (1usize << k2) != 0 {
                        if group_subset(&other.parts[k2].group, &p.group) {
                            compatible = true;
                        }
                    }
                    k2 = k2 + 1;
                }
                if compatible {
                    match p.gtype {
                        GroupType::Many(c) => {
                            if cap <= u128::MAX - (c as u128) {
                                cap = cap + (c as u128);
                            } else {
                                cap = u128::MAX;
                            }
                        },
                        GroupType::Star => {
                            cap_star = true;
                        },
                    }
                }
                j = j + 1;
            }
            if !cap_star && demand > cap {
                return false;
            }
            mask = mask + 1;
        }
        true
    }
}

/// Compare two groups lexicographically.
fn group_lt(a: &Vec<usize>, b: &Vec<usize>) -> (r: bool) {
    let mut i: usize = 0;
    while i < a.len() && i < b.len()
        decreases a@.len() - i,
    {
        if a[i] < b[i] {
            return true;
        }
        if a[i] > b[i] {
            return false;
        }
        i = i + 1;
    }
    a.len() < b.len()
}

/// Normalize a list of parts: sort by group, then merge parts over equal
/// groups — fixed counts add up, stars collapse into one.
fn normalize_parts(parts: Vec<Part>) -> (r: Vec<Part>) {
    // Insertion sort by group.
    let mut sorted: Vec<Part> = Vec::new();
    let mut rest = parts;
    while rest.len() > 0
        decreases rest@.len(),
    {
        let p = rest.remove(0);
        let mut pos: usize = 0;
        while pos < sorted.len()
            invariant
                pos <= sorted@.len(),
            decreases sorted@.len() - pos,
        {
            if group_lt(&p.group, &sorted[pos].group) {
                break;
            }
            pos = pos + 1;
        }
        sorted.insert(pos, p);
    }
    // Merge equal groups.
    let mut merged: Vec<Part> = Vec::new();
    let mut i: usize = 0;
    while i < sorted.len()
        decreases sorted@.len() - i,
    {
        let p = part_dup(&sorted[i]);
        if merged.len() > 0 {
            let last = merged.len() - 1;
            if group_eq(&merged[last].group, &p.group) {
                let combined: Option<GroupType> = match (merged[last].gtype, p.gtype) {
                    (GroupType::Many(x), GroupType::Many(y)) => {
                        if x <= usize::MAX - y {
                            Some(GroupType::Many(x + y))
                        } else {
                            Some(GroupType::Many(usize::MAX))
                        }
                    },
                    (GroupType::Star, GroupType::Star) => Some(GroupType::Star),
                    _ => None,
                };
                match combined {
                    Some(g) => {
                        let mut q = merged.remove(last);
                        q.gtype = g;
                        merged.push(q);
                        i = i + 1;
                        continue;
                    },
                    None => {
                    },
                }
            }
        }
        merged.push(p);
        i = i + 1;
    }
    merged
}

impl Constraint {
    /// Add a line, keeping only maximal lines: the new line is dropped when
    /// an existing line subsumes it, and existing lines subsumed by the new
    /// line are removed.
    fn add_line_and_discard_non_maximal(&mut self, line: Line) {
        let mut i: usize = 0;
        while i < self.lines.len()
            decreases self.lines@.len() - i,
        {
            if self.lines[i].includes(&line) {
                return;
            }
            i = i + 1;
        }
        let mut kept: Vec<Line> = Vec::new();
        let mut j: usize = 0;
        while j < self.lines.len()
            decreases self.lines@.len() - j,
        {
            if !line.includes(&self.lines[j]) {
                kept.push(line_dup(&self.lines[j]));
            }
            j = j + 1;
        }
        kept.push(line);
        self.lines = kept;
    }
}


/// Whether the mapping's entry at each position carries that position as
/// its identifier: how parsing assigns identifiers.
pub open spec fn ids_identity(m: Seq<(usize, String)>) -> bool {
    forall|i: int| 0 <= i < m.len() ==> (#[trigger] m[i]).0 == i
}

/// The identifier of a label text, assigning the next free identifier to a
/// text seen for the first time.
fn label_id(mapping: &mut Vec<(usize, String)>, text: String) -> (id: usize)
    requires
        ids_identity(old(mapping)@),
    ensures
        ids_identity(final(mapping)@),
{
    let mut i: usize = 0;
    while i < mapping.len()
        invariant
            mapping@ == old(mapping)@,
            ids_identity(mapping@),
        decreases mapping@.len() - i,
    {
        if mapping[i].1.eq(&text) {
            return mapping[i].0;
        }
        i = i + 1;
    }
    let id = mapping.len();
    mapping.push((id, text));
    id
}

/// Sort a group ascending and drop duplicate labels.
fn sort_dedup(v: Vec<usize>) -> (r: Vec<usize>) {
    let mut sorted: Vec<usize> = Vec::new();
    let mut rest = v;
    while rest.len() > 0
        decreases rest@.len(),
    {
        let x = rest.remove(0);
        if !vec_contains(&sorted, x) {
            let mut pos: usize = 0;
            while pos < sorted.len()
                invariant
                    pos <= sorted@.len(),
                decreases sorted@.len() - pos,
            {
                if x < sorted[pos] {
                    break;
                }
                pos = pos + 1;
            }
            sorted.insert(pos, x);
        }
    }
    sorted
}

/// Largest accepted slot count in the textual form.
pub const MAX_COUNT: usize = 1000000;

/// Parse one part token: label characters, then an optional `^n` or `*`.
fn parse_part(tok: &str, mapping: &mut Vec<(usize, String)>) -> (r: Result<Part, &'static str>)
    requires
        ids_identity(old(mapping)@),
    ensures
        ids_identity(final(mapping)@),
{
    let n = tok.unicode_len();
    let mut group: Vec<usize> = Vec::new();
    let mut i: usize = 0;
    while i < n
        invariant
            n == tok@.len(),
            ids_identity(mapping@),
        decreases n - i,
    {
        let c = tok.get_char(i);
        if c == '^' {
            if group.len() == 0 {
                return Err("a part needs at least one label");
            }
            if i + 1 >= n {
                return Err("a count is missing after the caret");
            }
            let mut val: usize = 0;
            let mut j: usize = i + 1;
            while j < n
                invariant
                    n == tok@.len(),
                    val <= MAX_COUNT,
                    ids_identity(mapping@),
                decreases n - j,
            {
                let d = tok.get_char(j) as u32;
                if d < 48 || d > 57 {
                    return Err("a count may hold only digits");
                }
                if val > 99999 {
                    return Err("a count this large is not accepted");
                }
                val = val * 10 + ((d - 48) as usize);
                j = j + 1;
            }
            if val == 0 {
                return Err("a count must be positive");
            }
            return Ok(Part { group: sort_dedup(group), gtype: GroupType::Many(val) });
        }
        if c == '*' {
            if group.len() == 0 {
                return Err("a part needs at least one label");
            }
            if i + 1 != n {
                return Err("nothing may follow a star");
            }
            return Ok(Part { group: sort_dedup(group), gtype: GroupType::Star });
        }
        let text = tok.substring_char(i, i + 1).to_owned();
        let id = label_id(mapping, text);
        group.push(id);
        i = i + 1;
    }
    if group.len() == 0 {
        return Err("a part needs at least one label");
    }
    Ok(Part { group: sort_dedup(group), gtype: GroupType::Many(1) })
}

/// Split a text into rows at line breaks.
fn split_rows(s: &str) -> (r: Vec<String>) {
    let n = s.unicode_len();
    let mut rows: Vec<String> = Vec::new();
    let mut start: usize = 0;
    let mut i: usize = 0;
    while i < n
        invariant
            n == s@.len(),
            start <= i,
            i <= n,
        decreases n - i,
    {
        if s.get_char(i) == '\n' {
            rows.push(s.substring_char(start, i).to_owned());
            start = i + 1;
        }
        i = i + 1;
    }
    rows.push(s.substring_char(start, n).to_owned());
    rows
}

/// Split a row into part tokens at spaces, dropping empty tokens.
fn split_tokens(row: &str) -> (r: Vec<String>) {
    let n = row.unicode_len();
    let mut toks: Vec<String> = Vec::new();
    let mut start: usize = 0;
    let mut i: usize = 0;
    while i < n
        invariant
            n == row@.len(),
            start <= i,
        decreases n - i,
    {
        if row.get_char(i) == ' ' {
            if start < i {
                toks.push(row.substring_char(start, i).to_owned());
            }
            start = i + 1;
        }
        i = i + 1;
    }
    if start < n {
        toks.push(row.substring_char(start, n).to_owned());
    }
    toks
}

impl Constraint {
    /// Parse one constraint from its rows, discarding subsumed lines.
    fn parse_rows(
        rows: &Vec<String>,
        from: usize,
        to: usize,
        mapping: &mut Vec<(usize, String)>,
    ) -> (r: Result<Constraint, &'static str>)
        requires
            to <= rows@.len(),
            ids_identity(old(mapping)@),
        ensures
            ids_identity(final(mapping)@),
    {
        let mut c = Constraint { lines: Vec::new() };
        let mut i: usize = from;
        while i < to
            invariant
                to <= rows@.len(),
                ids_identity(mapping@),
            decreases to - i,
        {
            let toks = split_tokens(rows[i].as_str());
            let mut parts: Vec<Part> = Vec::new();
            let mut j: usize = 0;
            while j < toks.len()
                invariant
                    ids_identity(mapping@),
                decreases toks@.len() - j,
            {
                match parse_part(toks[j].as_str(), mapping) {
                    Ok(p) => {
                        parts.push(p);
                    },
                    Err(e) => {
                        return Err(e);
                    },
                }
                j = j + 1;
            }
            if parts.len() > 0 {
                c.add_line_and_discard_non_maximal(Line { parts: normalize_parts(parts) });
            }
            i = i + 1;
        }
        Ok(c)
    }
}

/// Whether every pair of the mapping carries a distinct identifier and the
/// identifiers ascend.
pub open spec fn mapping_wf(mapping: Seq<(usize, String)>) -> bool {
    forall|i: int, j: int| 0 <= i < j < mapping.len() ==> mapping[i].0 < mapping[j].0
}

/// The identifiers of a mapping, in order.
pub open spec fn mapping_ids(mapping: Seq<(usize, String)>) -> Seq<usize> {
    mapping.map(|i: int, pr: (usize, String)| pr.0)
}

/// The text of a label in a mapping: the first pair carrying the
/// identifier decides, and an identifier the mapping does not carry renders
/// as a question mark.
pub open spec fn text_of_spec(mapping: Seq<(usize, String)>, id: usize) -> Seq<char>
    decreases mapping.len(),
{
    if mapping.len() == 0 {
        seq!['?']
    } else if mapping[0].0 == id {
        mapping[0].1@
    } else {
        text_of_spec(mapping.drop_first(), id)
    }
}

/// The text lookup is decided by the first matching pair: a prefix without
/// the identifier can be skipped.
pub proof fn lemma_text_of_spec_skip(mapping: Seq<(usize, String)>, id: usize, i: int)
    requires
        0 <= i < mapping.len(),
        mapping[i].0 != id,
    ensures
        text_of_spec(mapping.skip(i), id) == text_of_spec(mapping.skip(i + 1), id),
{
    assert(mapping.skip(i)[0] == mapping[i]);
    assert(mapping.skip(i).drop_first() =~= mapping.skip(i + 1));
}

/// The identifiers left after merging `from` into `dest`: unchanged when
/// the two coincide, otherwise `from` leaves.
pub open spec fn merge_ids(ids: Seq<usize>, from: usize, dest: usize) -> Seq<usize> {
    if from == dest {
        ids
    } else {
        ids.filter(|id: usize| id != from)
    }
}

/// The identifiers left after merging every member of one group into its
/// representative, in order.
pub open spec fn merge_group_ids(ids: Seq<usize>, dest: usize, members: Seq<usize>) -> Seq<usize>
    decreases members.len(),
{
    if members.len() == 0 {
        ids
    } else {
        merge_group_ids(merge_ids(ids, members[0], dest), dest, members.drop_first())
    }
}

/// The identifiers left after folding every merge group over the mapping,
/// group by group and member by member, in order.
pub open spec fn merge_all_ids(ids: Seq<usize>, groups: Seq<(usize, Seq<usize>)>) -> Seq<usize>
    decreases groups.len(),
{
    if groups.len() == 0 {
        ids
    } else {
        merge_all_ids(merge_group_ids(ids, groups[0].0, groups[0].1), groups.drop_first())
    }
}

impl Problem {
    /// Parse a problem from its textual form: the active constraint's rows,
    /// an empty row, then the passive constraint's rows.
    ///
    /// Label identifiers are assigned in order of first appearance, so the
    /// mapping from identifiers to texts ascends, and the analysis fields
    /// start out absent.
    pub fn from_string(s: &str) -> (r: Result<Problem, &'static str>)
        ensures
            r is Ok ==> mapping_wf(r->Ok_0.mapping_label_text@),
            r is Ok ==> ids_identity(r->Ok_0.mapping_label_text@),
            r is Ok ==> r->Ok_0.mapping_label_oldlabels is None
                && r->Ok_0.mapping_oldlabel_text is None && r->Ok_0.trivial_sets is None
                && r->Ok_0.coloring_sets is None && r->Ok_0.diagram_indirect is None
                && r->Ok_0.diagram_indirect_old is None && r->Ok_0.diagram_direct is None,
    {
        let rows = split_rows(s);
        // The active rows run until the first empty row.
        let mut split: usize = rows.len();
        let mut i: usize = 0;
        while i < rows.len()
            invariant
                i <= rows@.len(),
                split <= rows@.len(),
            decreases rows@.len() - i,
        {
            if rows[i].as_str().unicode_len() == 0 && split == rows.len() && i < rows.len() {
                split = i;
            }
            i = i + 1;
        }
        if split == rows.len() {
            return Err("an empty row must separate the active and passive constraints");
        }
        let mut mapping: Vec<(usize, String)> = Vec::new();
        let ghost m0 = mapping@;
        // The passive rows run from after the split to the next empty row
        // or the end.
        let mut pend: usize = rows.len();
        let mut k: usize = split + 1;
        while k < rows.len()
            invariant
                k <= rows@.len(),
                pend <= rows@.len(),
                split < k,
            decreases rows@.len() - k,
        {
            if rows[k].as_str().unicode_len() == 0 && pend == rows.len() {
                pend = k;
            }
            k = k + 1;
        }
        let active = match Constraint::parse_rows(&rows, 0, split, &mut mapping) {
            Ok(c) => c,
            Err(e) => {
                return Err(e);
            },
        };
        let passive = match Constraint::parse_rows(&rows, split + 1, pend, &mut mapping) {
            Ok(c) => c,
            Err(e) => {
                return Err(e);
            },
        };
        let p = Problem {
            active,
            passive,
            mapping_label_text: mapping,
            mapping_label_oldlabels: None,
            mapping_oldlabel_text: None,
            trivial_sets: None,
            coloring_sets: None,
            diagram_indirect: None,
            diagram_indirect_old: None,
            diagram_direct: None,
        };
        proof {
            assert(mapping_wf(p.mapping_label_text@));
            assert(ids_identity(p.mapping_label_text@));
        }
        Ok(p)
    }
}


/// The decimal rendering of a number.
fn render_usize(n: usize) -> (r: String) {
    let mut digits: Vec<usize> = Vec::new();
    let mut rest = n;
    if rest == 0 {
        digits.push(0);
    }
    while rest > 0
        decreases rest,
    {
        digits.push(rest % 10);
        rest = rest / 10;
    }
    let mut out = String::new();
    let mut i: usize = digits.len();
    while i > 0
        invariant
            i <= digits@.len(),
        decreases i,
    {
        i = i - 1;
        let d = digits[i];
        let t: &str = if d == 0 {
            "0"
        } else if d == 1 {
            "1"
        } else if d == 2 {
            "2"
        } else if d == 3 {
            "3"
        } else if d == 4 {
            "4"
        } else if d == 5 {
            "5"
        } else if d == 6 {
            "6"
        } else if d == 7 {
            "7"
        } else if d == 8 {
            "8"
        } else {
            "9"
        };
        out.append(t);
    }
    out
}

/// The text of a label, or a question mark for an unknown identifier.
fn text_of(mapping: &Vec<(usize, String)>, id: usize) -> (r: String)
    ensures
        r@ == text_of_spec(mapping@, id),
{
    proof {
        assert(mapping@.skip(0) =~= mapping@);
    }
    let mut i: usize = 0;
    while i < mapping.len()
        invariant
            i <= mapping@.len(),
            text_of_spec(mapping@, id) == text_of_spec(mapping@.skip(i as int), id),
        decreases mapping@.len() - i,
    {
        if mapping[i].0 == id {
            proof {
                assert(mapping@.skip(i as int)[0] == mapping@[i as int]);
            }
            return mapping[i].1.clone();
        }
        proof {
            lemma_text_of_spec_skip(mapping@, id, i as int);
        }
        i = i + 1;
    }
    proof {
        assert(mapping@.skip(mapping@.len() as int) =~= Seq::<(usize, String)>::empty());
        assert("?"@ =~= seq!['?']) by {
            reveal_strlit("?");
        }
    }
    String::from_str("?")
}

impl Problem {
    /// The label identifiers of this problem, ascending whenever the mapping
    /// is well formed — which parsing guarantees.
    pub fn labels(&self) -> (r: Vec<usize>)
        ensures
            r@.len() == self.mapping_label_text@.len(),
            r@.to_multiset() == self.mapping_label_text@.map(
                |i: int, pr: (usize, String)| pr.0,
            ).to_multiset(),
            forall|i: int, j: int| 0 <= i < j < r@.len() ==> r@[i] <= r@[j],
    {
        let mut ids: Vec<usize> = Vec::new();
        let mut i: usize = 0;
        while i < self.mapping_label_text.len()
            invariant
                i <= self.mapping_label_text@.len(),
                ids@ =~= self.mapping_label_text@.map(|k: int, pr: (usize, String)| pr.0).take(
                    i as int,
                ),
            decreases self.mapping_label_text@.len() - i,
        {
            ids.push(self.mapping_label_text[i].0);
            proof {
                assert(ids@ =~= self.mapping_label_text@.map(
                    |k: int, pr: (usize, String)| pr.0,
                ).take(i as int + 1));
            }
            i = i + 1;
        }
        proof {
            let m = self.mapping_label_text@.map(|k: int, pr: (usize, String)| pr.0);
            assert(m.take(m.len() as int) =~= m);
        }
        sort_ids(ids)
    }

    /// The textual form: each active line, an empty row, then each passive
    /// line, every row closed by a line break.
    pub fn to_text(&self) -> (r: String) {
        let mut out = String::new();
        let mut i: usize = 0;
        while i < self.active.lines.len()
            decreases self.active.lines@.len() - i,
        {
            let line = render_line(&self.active.lines[i], &self.mapping_label_text);
            out.append(line.as_str());
            out.append("\n");
            i = i + 1;
        }
        out.append("\n");
        let mut j: usize = 0;
        while j < self.passive.lines.len()
            decreases self.passive.lines@.len() - j,
        {
            let line = render_line(&self.passive.lines[j], &self.mapping_label_text);
            out.append(line.as_str());
            out.append("\n");
            j = j + 1;
        }
        out
    }
}

/// The textual form of one line: its parts separated by spaces.
fn render_line(l: &Line, mapping: &Vec<(usize, String)>) -> (r: String) {
    let mut out = String::new();
    let mut i: usize = 0;
    while i < l.parts.len()
        decreases l.parts@.len() - i,
    {
        if i > 0 {
            out.append(" ");
        }
        let p = &l.parts[i];
        let mut j: usize = 0;
        while j < p.group.len()
            invariant
                0 <= i < l.parts@.len(),
            decreases p.group@.len() - j,
        {
            let t = text_of(mapping, p.group[j]);
            out.append(t.as_str());
            j = j + 1;
        }
        match p.gtype {
            GroupType::Many(k) => {
                if k > 1 {
                    out.append("^");
                    let num = render_usize(k);
                    out.append(num.as_str());
                }
            },
            GroupType::Star => {
                out.append("*");
            },
        }
        i = i + 1;
    }
    out
}


/// The source of a pair read forwards or backwards.
pub open spec fn edge_src(pr: (usize, usize), invert: bool) -> usize {
    if invert {
        pr.1
    } else {
        pr.0
    }
}

/// The target of a pair read forwards or backwards.
pub open spec fn edge_dst(pr: (usize, usize), invert: bool) -> usize {
    if invert {
        pr.0
    } else {
        pr.1
    }
}

/// The adjacency map of a list of pairs: one entry per source or base
/// label, holding the set of targets of its outgoing pairs.
fn adjacency_map(pairs: &Vec<(usize, usize)>, base: &Vec<usize>, invert: bool) -> (h:
    std::collections::HashMap<usize, std::collections::HashSet<usize>>)
    ensures
        forall|a: usize|
            #[trigger] h@.contains_key(a) <==> (base@.contains(a) || exists|k: int|
                0 <= k < pairs@.len() && edge_src(#[trigger] pairs@[k], invert) == a),
        forall|a: usize, b: usize|
            h@.contains_key(a) ==> (#[trigger] h@[a]@.contains(b) <==> exists|k: int|
                0 <= k < pairs@.len() && edge_src(#[trigger] pairs@[k], invert) == a && edge_dst(
                    pairs@[k],
                    invert,
                ) == b),
{
    let mut keys: Vec<usize> = Vec::new();
    let mut i: usize = 0;
    while i < base.len()
        invariant
            i <= base@.len(),
            keys@ =~= base@.take(i as int),
        decreases base@.len() - i,
    {
        keys.push(base[i]);
        proof {
            assert(keys@ =~= base@.take(i as int + 1));
        }
        i = i + 1;
    }
    proof {
        assert(base@.take(base@.len() as int) =~= base@);
    }
    let mut i2: usize = 0;
    while i2 < pairs.len()
        invariant
            i2 <= pairs@.len(),
            keys@ =~= base@ + pairs@.take(i2 as int).map(
                |k: int, pr: (usize, usize)| edge_src(pr, invert),
            ),
        decreases pairs@.len() - i2,
    {
        let a = if invert {
            pairs[i2].1
        } else {
            pairs[i2].0
        };
        keys.push(a);
        proof {
            assert(keys@ =~= base@ + pairs@.take(i2 as int + 1).map(
                |k: int, pr: (usize, usize)| edge_src(pr, invert),
            ));
        }
        i2 = i2 + 1;
    }
    proof {
        assert(pairs@.take(pairs@.len() as int) =~= pairs@);
        let srcs = pairs@.map(|k: int, pr: (usize, usize)| edge_src(pr, invert));
        assert forall|a: usize| keys@.contains(a) implies (base@.contains(a) || exists|k: int|
            0 <= k < pairs@.len() && edge_src(#[trigger] pairs@[k], invert) == a) by {
            let w = choose|w: int| 0 <= w < keys@.len() && keys@[w] == a;
            if w >= base@.len() {
                assert(srcs[w - base@.len()] == a);
                assert(edge_src(pairs@[w - base@.len()], invert) == a);
            }
        }
        assert forall|a: usize| (base@.contains(a) || exists|k: int|
            0 <= k < pairs@.len() && edge_src(#[trigger] pairs@[k], invert) == a) implies keys@
            .contains(a) by {
            if base@.contains(a) {
                let w = choose|w: int| 0 <= w < base@.len() && base@[w] == a;
                assert(keys@[w] == a);
            } else {
                let k = choose|k: int|
                    0 <= k < pairs@.len() && edge_src(#[trigger] pairs@[k], invert) == a;
                assert(srcs[k] == a);
                assert(keys@[base@.len() + k] == a);
            }
        }
    }
    let mut h: std::collections::HashMap<usize, std::collections::HashSet<usize>> =
        std::collections::HashMap::new();
    let mut i3: usize = 0;
    while i3 < keys.len()
        invariant
            i3 <= keys@.len(),
            forall|a: usize| #[trigger] h@.contains_key(a) <==> keys@.take(i3 as int).contains(a),
            forall|a: usize, b: usize|
                h@.contains_key(a) ==> (#[trigger] h@[a]@.contains(b) <==> exists|k: int|
                    0 <= k < pairs@.len() && edge_src(#[trigger] pairs@[k], invert) == a
                        && edge_dst(pairs@[k], invert) == b),
        decreases keys@.len() - i3,
    {
        let a = keys[i3];
        let mut hs: std::collections::HashSet<usize> = std::collections::HashSet::new();
        let mut k: usize = 0;
        while k < pairs.len()
            invariant
                k <= pairs@.len(),
                forall|b: usize|
                    #[trigger] hs@.contains(b) <==> exists|w: int|
                        0 <= w < k && edge_src(#[trigger] pairs@[w], invert) == a && edge_dst(
                            pairs@[w],
                            invert,
                        ) == b,
            decreases pairs@.len() - k,
        {
            let src = if invert {
                pairs[k].1
            } else {
                pairs[k].0
            };
            let dst = if invert {
                pairs[k].0
            } else {
                pairs[k].1
            };
            proof {
                assert(edge_src(pairs@[k as int], invert) == src);
                assert(edge_dst(pairs@[k as int], invert) == dst);
            }
            if src == a {
                hs.insert(dst);
            }
            k = k + 1;
        }
        h.insert(a, hs);
        proof {
            assert(forall|j: int|
                0 <= j < i3 + 1 ==> keys@.take(i3 as int + 1)[j] == keys@[j]);
            assert forall|x: usize| #[trigger] h@.contains_key(x) implies keys@.take(
                i3 as int + 1,
            ).contains(x) by {
                if keys@.take(i3 as int).contains(x) {
                    let w = choose|w: int| 0 <= w < i3 && #[trigger] keys@.take(i3 as int)[w] == x;
                    assert(keys@.take(i3 as int + 1)[w] == x);
                } else {
                    assert(x == a);
                    assert(keys@.take(i3 as int + 1)[i3 as int] == x);
                }
            }
            assert forall|x: usize| keys@.take(i3 as int + 1).contains(x) implies #[trigger] h@
                .contains_key(x) by {
                let w = choose|w: int| 0 <= w < i3 + 1 && #[trigger] keys@.take(i3 as int + 1)[w] == x;
                if w < i3 {
                    assert(keys@.take(i3 as int)[w] == x);
                }
            }
        }
        i3 = i3 + 1;
    }
    proof {
        assert(keys@.take(keys@.len() as int) =~= keys@);
    }
    h
}

impl Problem {
    /// The reachability adjacency of the computed diagram: for every label,
    /// the set of labels its indirect diagram edges reach, with an entry for
    /// every label of the problem.
    pub fn diagram_indirect_to_reachability_adj(&self) -> (h: std::collections::HashMap<
        usize,
        std::collections::HashSet<usize>,
    >)
        requires
            self.diagram_indirect is Some,
        ensures
            forall|a: usize|
                #[trigger] h@.contains_key(a) <==> (self.mapping_label_text@.map(
                    |i: int, pr: (usize, String)| pr.0,
                ).contains(a) || exists|k: int|
                    0 <= k < self.diagram_indirect->0@.len() && (#[trigger] self
                        .diagram_indirect->0@[k]).0 == a),
            forall|a: usize, b: usize|
                h@.contains_key(a) ==> (#[trigger] h@[a]@.contains(b) <==> self
                    .diagram_indirect->0@.contains((a, b))),
    {
        let pairs = match self.diagram_indirect.as_ref() {
            Some(p) => p,
            None => {
                proof {
                    assert(false);
                }
                unreached()
            },
        };
        let base = self.labels();
        proof {
            broadcast use vstd::seq_lib::group_to_multiset_ensures;

            let m = self.mapping_label_text@.map(|i: int, pr: (usize, String)| pr.0);
            assert forall|a: usize| base@.contains(a) <==> m.contains(a) by {
                assert(base@.contains(a) <==> base@.to_multiset().count(a) > 0);
                assert(m.contains(a) <==> m.to_multiset().count(a) > 0);
            }
        }
        let h = adjacency_map(pairs, &base, false);
        proof {
            assert forall|a: usize, b: usize|
                h@.contains_key(a) implies (#[trigger] h@[a]@.contains(b) <==> self
                .diagram_indirect->0@.contains((a, b))) by {
                if (h@[a])@.contains(b) {
                    let k = choose|k: int|
                        0 <= k < pairs@.len() && edge_src(#[trigger] pairs@[k], false) == a
                            && edge_dst(pairs@[k], false) == b;
                    assert(pairs@[k] == (a, b));
                }
                if self.diagram_indirect->0@.contains((a, b)) {
                    let k = choose|k: int|
                        0 <= k < pairs@.len() && pairs@[k] == (a, b);
                    assert(edge_src(pairs@[k], false) == a && edge_dst(pairs@[k], false) == b);
                }
            }
        }
        h
    }

    /// The inverse reachability adjacency of the computed diagram: for every
    /// label, the set of labels whose indirect diagram edges reach it.
    pub fn diagram_indirect_to_inverse_reachability_adj(&self) -> (h: std::collections::HashMap<
        usize,
        std::collections::HashSet<usize>,
    >)
        requires
            self.diagram_indirect is Some,
        ensures
            forall|a: usize|
                #[trigger] h@.contains_key(a) <==> (self.mapping_label_text@.map(
                    |i: int, pr: (usize, String)| pr.0,
                ).contains(a) || exists|k: int|
                    0 <= k < self.diagram_indirect->0@.len() && (#[trigger] self
                        .diagram_indirect->0@[k]).1 == a),
            forall|a: usize, b: usize|
                h@.contains_key(a) ==> (#[trigger] h@[a]@.contains(b) <==> self
                    .diagram_indirect->0@.contains((b, a))),
    {
        let pairs = match self.diagram_indirect.as_ref() {
            Some(p) => p,
            None => {
                proof {
                    assert(false);
                }
                unreached()
            },
        };
        let base = self.labels();
        proof {
            broadcast use vstd::seq_lib::group_to_multiset_ensures;

            let m = self.mapping_label_text@.map(|i: int, pr: (usize, String)| pr.0);
            assert forall|a: usize| base@.contains(a) <==> m.contains(a) by {
                assert(base@.contains(a) <==> base@.to_multiset().count(a) > 0);
                assert(m.contains(a) <==> m.to_multiset().count(a) > 0);
            }
        }
        let h = adjacency_map(pairs, &base, true);
        proof {
            assert forall|a: usize, b: usize|
                h@.contains_key(a) implies (#[trigger] h@[a]@.contains(b) <==> self
                .diagram_indirect->0@.contains((b, a))) by {
                if (h@[a])@.contains(b) {
                    let k = choose|k: int|
                        0 <= k < pairs@.len() && edge_src(#[trigger] pairs@[k], true) == a
                            && edge_dst(pairs@[k], true) == b;
                    assert(pairs@[k] == (b, a));
                }
                if self.diagram_indirect->0@.contains((b, a)) {
                    let k = choose|k: int|
                        0 <= k < pairs@.len() && pairs@[k] == (b, a);
                    assert(edge_src(pairs@[k], true) == a && edge_dst(pairs@[k], true) == b);
                }
            }
        }
        h
    }

    /// The reachability adjacency of the diagram over the labels before the
    /// last speedup, with an entry for every old label.
    pub fn diagram_indirect_old_to_reachability_adj(&self) -> (h: std::collections::HashMap<
        usize,
        std::collections::HashSet<usize>,
    >)
        requires
            self.diagram_indirect_old is Some,
            self.mapping_oldlabel_text is Some,
        ensures
            forall|a: usize|
                #[trigger] h@.contains_key(a) <==> (self.mapping_oldlabel_text->0@.map(
                    |i: int, pr: (usize, String)| pr.0,
                ).contains(a) || exists|k: int|
                    0 <= k < self.diagram_indirect_old->0@.len() && (#[trigger] self
                        .diagram_indirect_old->0@[k]).0 == a),
            forall|a: usize, b: usize|
                h@.contains_key(a) ==> (#[trigger] h@[a]@.contains(b) <==> self
                    .diagram_indirect_old->0@.contains((a, b))),
    {
        let pairs = match self.diagram_indirect_old.as_ref() {
            Some(p) => p,
            None => {
                proof {
                    assert(false);
                }
                unreached()
            },
        };
        let olds = match self.mapping_oldlabel_text.as_ref() {
            Some(m) => m,
            None => {
                proof {
                    assert(false);
                }
                unreached()
            },
        };
        let mut base: Vec<usize> = Vec::new();
        let mut i: usize = 0;
        while i < olds.len()
            invariant
                i <= olds@.len(),
                base@ =~= olds@.map(|k: int, pr: (usize, String)| pr.0).take(i as int),
            decreases olds@.len() - i,
        {
            base.push(olds[i].0);
            proof {
                assert(base@ =~= olds@.map(|k: int, pr: (usize, String)| pr.0).take(
                    i as int + 1,
                ));
            }
            i = i + 1;
        }
        proof {
            let m = olds@.map(|k: int, pr: (usize, String)| pr.0);
            assert(m.take(m.len() as int) =~= m);
        }
        let h = adjacency_map(pairs, &base, false);
        proof {
            assert forall|a: usize, b: usize|
                h@.contains_key(a) implies (#[trigger] h@[a]@.contains(b) <==> self
                .diagram_indirect_old->0@.contains((a, b))) by {
                if (h@[a])@.contains(b) {
                    let k = choose|k: int|
                        0 <= k < pairs@.len() && edge_src(#[trigger] pairs@[k], false) == a
                            && edge_dst(pairs@[k], false) == b;
                    assert(pairs@[k] == (a, b));
                }
                if self.diagram_indirect_old->0@.contains((a, b)) {
                    let k = choose|k: int|
                        0 <= k < pairs@.len() && pairs@[k] == (a, b);
                    assert(edge_src(pairs@[k], false) == a && edge_dst(pairs@[k], false) == b);
                }
            }
        }
        h
    }
}


/// Sort a configuration ascending, keeping duplicates.
fn sort_vec(v: Vec<usize>) -> (r: Vec<usize>) {
    let mut sorted: Vec<usize> = Vec::new();
    let mut rest = v;
    while rest.len() > 0
        decreases rest@.len(),
    {
        let x = rest.remove(0);
        let mut pos: usize = 0;
        while pos < sorted.len()
            invariant
                pos <= sorted@.len(),
            decreases sorted@.len() - pos,
        {
            if x < sorted[pos] {
                break;
            }
            pos = pos + 1;
        }
        sorted.insert(pos, x);
    }
    sorted
}

/// Bound on how many configurations a line may contribute to the diagram
/// computation.
pub const MAX_CONFIGS: usize = 4096;

/// Every configuration a fixed-arity line allows, sorted; absent when the
/// line holds a star part or allows more than the accepted bound.
fn line_configs(l: &Line) -> (r: Option<Vec<Vec<usize>>>) {
    let mut acc: Vec<Vec<usize>> = Vec::new();
    acc.push(Vec::new());
    let mut i: usize = 0;
    while i < l.parts.len()
        decreases l.parts@.len() - i,
    {
        let p = &l.parts[i];
        let k = match p.gtype {
            GroupType::Many(k) => k,
            GroupType::Star => {
                return None;
            },
        };
        if p.group.len() == 0 {
            return None;
        }
        if k > MAX_CONFIGS {
            return None;
        }
        let mut rep: usize = 0;
        while rep < k
            invariant
                0 <= i < l.parts@.len(),
                k <= MAX_CONFIGS,
            decreases k - rep,
        {
            let mut next: Vec<Vec<usize>> = Vec::new();
            let mut a: usize = 0;
            while a < acc.len()
                invariant
                    0 <= i < l.parts@.len(),
                decreases acc@.len() - a,
            {
                let mut g: usize = 0;
                while g < l.parts[i].group.len()
                    invariant
                        0 <= i < l.parts@.len(),
                        0 <= a < acc@.len(),
                    decreases l.parts@[i as int].group@.len() - g,
                {
                    if next.len() >= MAX_CONFIGS {
                        return None;
                    }
                    let mut cfg = clone_usize_vec(&acc[a]);
                    cfg.push(l.parts[i].group[g]);
                    next.push(cfg);
                    g = g + 1;
                }
                a = a + 1;
            }
            acc = next;
            rep = rep + 1;
        }
        i = i + 1;
    }
    let mut sorted: Vec<Vec<usize>> = Vec::new();
    let mut j: usize = 0;
    while j < acc.len()
        decreases acc@.len() - j,
    {
        sorted.push(sort_vec(clone_usize_vec(&acc[j])));
        j = j + 1;
    }
    Some(sorted)
}

/// A value copy of a vector of label identifiers.
fn clone_usize_vec(v: &Vec<usize>) -> (r: Vec<usize>)
    ensures
        r@ == v@,
{
    let mut r: Vec<usize> = Vec::new();
    let mut i: usize = 0;
    while i < v.len()
        invariant
            i <= v@.len(),
            r@ =~= v@.take(i as int),
        decreases v@.len() - i,
    {
        r.push(v[i]);
        proof {
            assert(r@ =~= v@.take(i as int + 1));
        }
        i = i + 1;
    }
    proof {
        assert(v@.take(v@.len() as int) =~= v@);
    }
    r
}

/// Whether a list of configurations holds one equal to the given one.
fn configs_contain(list: &Vec<Vec<usize>>, cfg: &Vec<usize>) -> (r: bool) {
    let mut i: usize = 0;
    while i < list.len()
        decreases list@.len() - i,
    {
        if group_eq(&list[i], cfg) {
            return true;
        }
        i = i + 1;
    }
    false
}

impl Problem {
    /// Compute the label diagram from the passive constraint.
    ///
    /// There is an edge from `a` to `b` when in every allowed passive
    /// configuration holding `a`, one `a` can be replaced by `b` and the
    /// configuration stays allowed.  Labels with edges both ways are
    /// equivalent; the merge groups pair each group's smallest label with
    /// all its members.  Starred or over-large passive lines make the
    /// diagram empty (see [`MAX_CONFIGS`]).
    pub fn compute_diagram(&mut self)
        ensures
            final(self).diagram_indirect is Some,
            final(self).diagram_direct is Some,
            final(self).mapping_label_text@ == old(self).mapping_label_text@,
            forall|k: int|
                0 <= k < (final(self).diagram_indirect->0)@.len() ==> {
                    let e = (#[trigger] (final(self).diagram_indirect->0)@[k]);
                    &&& e.0 != e.1
                    &&& mapping_ids(final(self).mapping_label_text@).contains(e.0)
                    &&& mapping_ids(final(self).mapping_label_text@).contains(e.1)
                },
    {
        let labels = self.labels();
        proof {
            broadcast use vstd::seq_lib::group_to_multiset_ensures;

            let m = mapping_ids(self.mapping_label_text@);
            assert forall|a: usize| labels@.contains(a) <==> m.contains(a) by {
                assert(labels@.contains(a) <==> labels@.to_multiset().count(a) > 0);
                assert(m.contains(a) <==> m.to_multiset().count(a) > 0);
            }
        }
        let mut allowed: Vec<Vec<usize>> = Vec::new();
        let mut enumerable: bool = true;
        let mut i: usize = 0;
        while i < self.passive.lines.len()
            invariant
                self == old(self),
            decreases self.passive.lines@.len() - i,
        {
            match line_configs(&self.passive.lines[i]) {
                Some(mut cfgs) => {
                    allowed.append(&mut cfgs);
                },
                None => {
                    enumerable = false;
                },
            }
            i = i + 1;
        }
        let mut edges: Vec<(usize, usize)> = Vec::new();
        if enumerable {
            let mut ai: usize = 0;
            while ai < labels.len()
                invariant
                    self == old(self),
                    forall|k: int|
                        0 <= k < edges@.len() ==> (#[trigger] edges@[k]).0 != edges@[k].1
                            && labels@.contains(edges@[k].0) && labels@.contains(edges@[k].1),
                decreases labels@.len() - ai,
            {
                let mut bi: usize = 0;
                while bi < labels.len()
                    invariant
                        self == old(self),
                        0 <= ai < labels@.len(),
                        forall|k: int|
                            0 <= k < edges@.len() ==> (#[trigger] edges@[k]).0 != edges@[k].1
                                && labels@.contains(edges@[k].0) && labels@.contains(
                                edges@[k].1,
                            ),
                    decreases labels@.len() - bi,
                {
                    let a = labels[ai];
                    let b = labels[bi];
                    if a != b {
                        let mut ok: bool = true;
                        let mut ci: usize = 0;
                        while ci < allowed.len()
                            decreases allowed@.len() - ci,
                        {
                            if vec_contains(&allowed[ci], a) {
                                let mut cfg = clone_usize_vec(&allowed[ci]);
                                let mut replaced: bool = false;
                                let mut w: usize = 0;
                                while w < cfg.len()
                                    invariant
                                        cfg@.len() == allowed@[ci as int]@.len(),
                                        0 <= ci < allowed@.len(),
                                    decreases cfg@.len() - w,
                                {
                                    if !replaced && cfg[w] == a {
                                        cfg.set(w, b);
                                        replaced = true;
                                    }
                                    w = w + 1;
                                }
                                let cfg2 = sort_vec(cfg);
                                if !configs_contain(&allowed, &cfg2) {
                                    ok = false;
                                }
                            }
                            ci = ci + 1;
                        }
                        if ok {
                            edges.push((a, b));
                            proof {
                                assert(labels@.contains(a)) by {
                                    assert(labels@[ai as int] == a);
                                }
                                assert(labels@.contains(b)) by {
                                    assert(labels@[bi as int] == b);
                                }
                                assert(edges@[edges@.len() - 1] == (a, b));
                            }
                        }
                    }
                    bi = bi + 1;
                }
                ai = ai + 1;
            }
        }
        // Merge groups: mutual edges mean equivalent labels; the smallest
        // member represents the group.
        let mut groups: Vec<(usize, Vec<usize>)> = Vec::new();
        let mut assigned: Vec<usize> = Vec::new();
        let mut gi: usize = 0;
        while gi < labels.len()
            invariant
                self == old(self),
                forall|k: int|
                    0 <= k < edges@.len() ==> (#[trigger] edges@[k]).0 != edges@[k].1
                        && labels@.contains(edges@[k].0) && labels@.contains(edges@[k].1),
            decreases labels@.len() - gi,
        {
            let a = labels[gi];
            if !vec_contains(&assigned, a) {
                let mut members: Vec<usize> = Vec::new();
                members.push(a);
                assigned.push(a);
                let mut hi: usize = 0;
                while hi < labels.len()
                    invariant
                        self == old(self),
                        0 <= gi < labels@.len(),
                    decreases labels@.len() - hi,
                {
                    let b = labels[hi];
                    if b != a && !vec_contains(&assigned, b) {
                        let mut fwd: bool = false;
                        let mut bwd: bool = false;
                        let mut ei: usize = 0;
                        while ei < edges.len()
                            decreases edges@.len() - ei,
                        {
                            if edges[ei].0 == a && edges[ei].1 == b {
                                fwd = true;
                            }
                            if edges[ei].0 == b && edges[ei].1 == a {
                                bwd = true;
                            }
                            ei = ei + 1;
                        }
                        if fwd && bwd {
                            members.push(b);
                            assigned.push(b);
                        }
                    }
                    hi = hi + 1;
                }
                groups.push((a, members));
            }
            gi = gi + 1;
        }
        proof {
            broadcast use vstd::seq_lib::group_to_multiset_ensures;

            let m = mapping_ids(self.mapping_label_text@);
            assert forall|k: int|
                0 <= k < edges@.len() implies {
                let e = (#[trigger] edges@[k]);
                e.0 != e.1 && m.contains(e.0) && m.contains(e.1)
            } by {
                assert(labels@.contains(edges@[k].0) <==> m.contains(edges@[k].0)) by {
                    assert(labels@.contains(edges@[k].0) <==> labels@.to_multiset().count(
                        edges@[k].0,
                    ) > 0);
                    assert(m.contains(edges@[k].0) <==> m.to_multiset().count(edges@[k].0) > 0);
                }
                assert(labels@.contains(edges@[k].1) <==> m.contains(edges@[k].1)) by {
                    assert(labels@.contains(edges@[k].1) <==> labels@.to_multiset().count(
                        edges@[k].1,
                    ) > 0);
                    assert(m.contains(edges@[k].1) <==> m.to_multiset().count(edges@[k].1) > 0);
                }
            }
        }
        self.diagram_indirect = Some(edges);
        self.diagram_direct = Some((groups, Vec::new()));
    }
}


/// A value copy of a constraint.
fn constraint_dup(c: &Constraint) -> (r: Constraint) {
    let mut lines: Vec<Line> = Vec::new();
    let mut i: usize = 0;
    while i < c.lines.len()
        decreases c.lines@.len() - i,
    {
        lines.push(line_dup(&c.lines[i]));
        i = i + 1;
    }
    Constraint { lines }
}

/// A value copy of a label mapping.
fn mapping_dup(m: &Vec<(usize, String)>) -> (r: Vec<(usize, String)>)
    ensures
        r@.len() == m@.len(),
        forall|i: int|
            0 <= i < m@.len() ==> (#[trigger] r@[i]).0 == m@[i].0 && r@[i].1@ == m@[i].1@,
{
    let mut r: Vec<(usize, String)> = Vec::new();
    let mut i: usize = 0;
    while i < m.len()
        invariant
            i <= m@.len(),
            r@.len() == i,
            forall|j: int|
                0 <= j < i ==> (#[trigger] r@[j]).0 == m@[j].0 && r@[j].1@ == m@[j].1@,
        decreases m@.len() - i,
    {
        let text = m[i].1.clone();
        r.push((m[i].0, text));
        i = i + 1;
    }
    r
}

/// One group with `from` replaced by `dest`, sorted and without duplicates.
fn remap_group(g: &Vec<usize>, from: usize, dest: usize) -> (r: Vec<usize>) {
    let mut out: Vec<usize> = Vec::new();
    let mut i: usize = 0;
    while i < g.len()
        decreases g@.len() - i,
    {
        if g[i] == from {
            out.push(dest);
        } else {
            out.push(g[i]);
        }
        i = i + 1;
    }
    sort_dedup(out)
}

/// A constraint with `from` replaced by `dest` in every group, renormalized
/// line by line with subsumed lines discarded.
fn remap_constraint(c: &Constraint, from: usize, dest: usize) -> (r: Constraint) {
    let mut out = Constraint { lines: Vec::new() };
    let mut i: usize = 0;
    while i < c.lines.len()
        decreases c.lines@.len() - i,
    {
        let mut parts: Vec<Part> = Vec::new();
        let mut j: usize = 0;
        while j < c.lines[i].parts.len()
            invariant
                0 <= i < c.lines@.len(),
            decreases c.lines@[i as int].parts@.len() - j,
        {
            let p = &c.lines[i].parts[j];
            parts.push(Part { group: remap_group(&p.group, from, dest), gtype: p.gtype });
            j = j + 1;
        }
        out.add_line_and_discard_non_maximal(Line { parts: normalize_parts(parts) });
        i = i + 1;
    }
    out
}

impl Problem {
    /// The problem with label `from` merged into label `dest`: every
    /// occurrence of `from` is replaced by `dest`, the constraints are
    /// renormalized, the merged label leaves the mapping, and the analysis
    /// fields start out absent again.
    pub fn relax_merge(&self, from: usize, dest: usize) -> (r: Problem)
        ensures
            r.mapping_label_text@.len() <= self.mapping_label_text@.len(),
            r.diagram_indirect is None,
            r.diagram_direct is None,
            mapping_ids(r.mapping_label_text@) =~= merge_ids(
                mapping_ids(self.mapping_label_text@),
                from,
                dest,
            ),
            from != dest ==> forall|q: int|
                0 <= q < r.mapping_label_text@.len() ==> (#[trigger] r.mapping_label_text@[q]).0
                    != from,
    {
        let active = remap_constraint(&self.active, from, dest);
        let passive = remap_constraint(&self.passive, from, dest);
        let mut mapping: Vec<(usize, String)> = Vec::new();
        let mut i: usize = 0;
        while i < self.mapping_label_text.len()
            invariant
                i <= self.mapping_label_text@.len(),
                mapping@.len() <= i,
                mapping_ids(mapping@) =~= merge_ids(
                    mapping_ids(self.mapping_label_text@.take(i as int)),
                    from,
                    dest,
                ),
                from != dest ==> forall|q: int|
                    0 <= q < mapping@.len() ==> (#[trigger] mapping@[q]).0 != from,
            decreases self.mapping_label_text@.len() - i,
        {
            let ghost pre = mapping_ids(self.mapping_label_text@.take(i as int));
            let ghost x = self.mapping_label_text@[i as int].0;
            let ghost m0 = mapping@;
            if self.mapping_label_text[i].0 != from || from == dest {
                let text = self.mapping_label_text[i].1.clone();
                mapping.push((self.mapping_label_text[i].0, text));
                proof {
                    assert(mapping_ids(mapping@) =~= mapping_ids(m0).push(x));
                }
            }
            proof {
                assert(mapping_ids(self.mapping_label_text@.take(i as int + 1)) =~= pre.push(x));
                lemma_merge_ids_push(pre, from, dest, x);
                assert(mapping_ids(mapping@) =~= merge_ids(
                    mapping_ids(self.mapping_label_text@.take(i as int + 1)),
                    from,
                    dest,
                ));
            }
            i = i + 1;
        }
        proof {
            assert(self.mapping_label_text@.take(self.mapping_label_text@.len() as int)
                =~= self.mapping_label_text@);
        }
        Problem {
            active,
            passive,
            mapping_label_text: mapping,
            mapping_label_oldlabels: None,
            mapping_oldlabel_text: None,
            trivial_sets: None,
            coloring_sets: None,
            diagram_indirect: None,
            diagram_indirect_old: None,
            diagram_direct: None,
        }
    }

    /// The problem with every group of equivalent labels, as recorded in
    /// the computed diagram, merged into the group's representative: the
    /// merges of `relax_merge` folded over the diagram's groups, group by
    /// group and member by member, in order — stated here of the label
    /// mapping, which the fold `merge_all_ids` models exactly.
    pub fn merge_equivalent_labels(&self) -> (r: Problem)
        requires
            self.diagram_direct is Some,
        ensures
            mapping_ids(r.mapping_label_text@) =~= merge_all_ids(
                mapping_ids(self.mapping_label_text@),
                (self.diagram_direct->0).0@.map(|i: int, gr: (usize, Vec<usize>)| (gr.0, gr.1@)),
            ),
            r.mapping_label_text@.len() <= self.mapping_label_text@.len(),
            r.diagram_indirect is None,
            r.diagram_direct is None,
    {
        let ghost ids0 = mapping_ids(self.mapping_label_text@);
        let ghost gv = (self.diagram_direct->0).0@.map(
            |i: int, gr: (usize, Vec<usize>)| (gr.0, gr.1@),
        );
        let mut p = Problem {
            active: constraint_dup(&self.active),
            passive: constraint_dup(&self.passive),
            mapping_label_text: mapping_dup(&self.mapping_label_text),
            mapping_label_oldlabels: None,
            mapping_oldlabel_text: None,
            trivial_sets: None,
            coloring_sets: None,
            diagram_indirect: None,
            diagram_indirect_old: None,
            diagram_direct: None,
        };
        let merge_groups = match self.diagram_direct.as_ref() {
            Some(d) => &d.0,
            None => {
                proof {
                    assert(false);
                }
                unreached()
            },
        };
        proof {
            assert(merge_groups@.map(|i: int, gr: (usize, Vec<usize>)| (gr.0, gr.1@)) =~= gv);
            assert(mapping_ids(p.mapping_label_text@) =~= ids0);
            assert(gv.skip(0) =~= gv);
        }
        let mut g: usize = 0;
        while g < merge_groups.len()
            invariant
                merge_groups@.map(|i: int, gr: (usize, Vec<usize>)| (gr.0, gr.1@)) =~= gv,
                g <= merge_groups@.len(),
                merge_all_ids(mapping_ids(p.mapping_label_text@), gv.skip(g as int))
                    == merge_all_ids(ids0, gv),
                p.mapping_label_text@.len() <= self.mapping_label_text@.len(),
                p.diagram_indirect is None,
                p.diagram_direct is None,
            decreases merge_groups@.len() - g,
        {
            let dest = merge_groups[g].0;
            proof {
                assert(gv.skip(g as int)[0] == gv[g as int]);
                assert(gv.skip(g as int).drop_first() =~= gv.skip(g as int + 1));
                assert(gv[g as int] == (merge_groups@[g as int].0, merge_groups@[g as int].1@));
                assert(merge_all_ids(mapping_ids(p.mapping_label_text@), gv.skip(g as int))
                    == merge_all_ids(
                    merge_group_ids(
                        mapping_ids(p.mapping_label_text@),
                        dest,
                        merge_groups@[g as int].1@,
                    ),
                    gv.skip(g as int + 1),
                ));
            }
            let ghost members = merge_groups@[g as int].1@;
            proof {
                assert(members.skip(0) =~= members);
            }
            let mut m: usize = 0;
            while m < merge_groups[g].1.len()
                invariant
                    0 <= g < merge_groups@.len(),
                    m <= members.len(),
                    members == merge_groups@[g as int].1@,
                    dest == merge_groups@[g as int].0,
                    merge_all_ids(
                        merge_group_ids(
                            mapping_ids(p.mapping_label_text@),
                            dest,
                            members.skip(m as int),
                        ),
                        gv.skip(g as int + 1),
                    ) == merge_all_ids(ids0, gv),
                    p.mapping_label_text@.len() <= self.mapping_label_text@.len(),
                    p.diagram_indirect is None,
                    p.diagram_direct is None,
                decreases merge_groups@[g as int].1@.len() - m,
            {
                let from = merge_groups[g].1[m];
                let ghost before = mapping_ids(p.mapping_label_text@);
                p = p.relax_merge(from, dest);
                proof {
                    assert(members.skip(m as int)[0] == members[m as int]);
                    assert(members.skip(m as int).drop_first() =~= members.skip(m as int + 1));
                    assert(merge_group_ids(before, dest, members.skip(m as int))
                        == merge_group_ids(
                        merge_ids(before, members[m as int], dest),
                        dest,
                        members.skip(m as int + 1),
                    ));
                    assert(mapping_ids(p.mapping_label_text@) == merge_ids(
                        before,
                        members[m as int],
                        dest,
                    ));
                }
                m = m + 1;
            }
            proof {
                assert(members.skip(members.len() as int) =~= Seq::<usize>::empty());
            }
            g = g + 1;
        }
        proof {
            assert(gv.skip(merge_groups@.len() as int) =~= Seq::<(usize, Seq<usize>)>::empty());
        }
        p
    }
}


/// Sort label identifiers ascending: the result is a permutation of the
/// input.
fn sort_ids(v: Vec<usize>) -> (r: Vec<usize>)
    ensures
        r@.len() == v@.len(),
        r@.to_multiset() == v@.to_multiset(),
        forall|i: int, j: int| 0 <= i < j < r@.len() ==> r@[i] <= r@[j],
{
    let mut out: Vec<usize> = Vec::new();
    let mut rest = v;
    proof {
        broadcast use vstd::seq_lib::group_to_multiset_ensures;

        assert(out@.to_multiset().add(rest@.to_multiset()) =~= rest@.to_multiset());
    }
    while rest.len() > 0
        invariant
            out@.to_multiset().add(rest@.to_multiset()) == v@.to_multiset(),
            out@.len() + rest@.len() == v@.len(),
            forall|i: int, j: int| 0 <= i < j < out@.len() ==> out@[i] <= out@[j],
            forall|i: int, k: int|
                0 <= i < out@.len() && 0 <= k < rest@.len() ==> out@[i] <= rest@[k],
        decreases rest@.len(),
    {
        let mut mi: usize = 0;
        let mut k: usize = 1;
        while k < rest.len()
            invariant
                mi < k,
                k <= rest@.len(),
                rest@.len() > 0,
                forall|w: int| 0 <= w < k ==> rest@[mi as int] <= rest@[w],
            decreases rest@.len() - k,
        {
            if rest[k] < rest[mi] {
                mi = k;
            }
            k = k + 1;
        }
        let ghost rest0 = rest@;
        let ghost out0 = out@;
        let x = rest.remove(mi);
        out.push(x);
        proof {
            broadcast use vstd::seq_lib::group_to_multiset_ensures;

            assert(rest@ =~= rest0.remove(mi as int));
            assert(rest@.to_multiset() =~= rest0.to_multiset().remove(x));
            assert(out@.to_multiset() =~= out0.to_multiset().insert(x));
            assert(rest0.to_multiset().count(x) >= 1) by {
                assert(rest0[mi as int] == x);
                assert(rest0.contains(x));
            }
            assert(out@.to_multiset().add(rest@.to_multiset()) =~= out0.to_multiset().add(
                rest0.to_multiset(),
            )) by {
                assert(forall|y: usize|
                    #[trigger] out@.to_multiset().add(rest@.to_multiset()).count(y) == out0
                        .to_multiset().add(rest0.to_multiset()).count(y));
            }
            assert(forall|w: int|
                0 <= w < rest@.len() ==> rest@[w] == rest0[if w < mi {
                    w
                } else {
                    w + 1
                }]);
            assert(forall|w: int| 0 <= w < rest@.len() ==> x <= rest@[w]);
        }
    }
    proof {
        broadcast use vstd::seq_lib::group_to_multiset_ensures;

        assert(rest@.to_multiset() =~= Multiset::<usize>::empty()) by {
            assert(rest@.len() == 0);
            assert(rest@ =~= Seq::<usize>::empty());
        }
        assert(out@.to_multiset().add(rest@.to_multiset()) =~= out@.to_multiset());
    }
    out
}


/// Merging distributes over appending one identifier: the appended
/// identifier stays exactly when it is not the merged-away one.
pub proof fn lemma_merge_ids_push(ids: Seq<usize>, from: usize, dest: usize, x: usize)
    ensures
        merge_ids(ids.push(x), from, dest) =~= if from == dest || x != from {
            merge_ids(ids, from, dest).push(x)
        } else {
            merge_ids(ids, from, dest)
        },
{
    reveal(Seq::filter);
    assert(ids.push(x).drop_last() =~= ids);
    assert(ids.push(x).last() == x);
}

} // verus!
