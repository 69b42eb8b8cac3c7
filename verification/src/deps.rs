//! Package relationship expressions: one dependency with its optional
//! version constraint, architecture restriction and build-profile condition,
//! and comma/pipe dependency lists.

use vstd::prelude::*;

use crate::text::{
    eq_str, find_char, find_char_str, is_space, is_space_char, lemma_find_char, trim_spec,
    trim_str,
};
use crate::version::{render_version, spec_parse_version, Version, VersionModel};

verus! {

use vstd::string::StrSliceExecFns;
use vstd::string::StringExecFns;

/// A version relation operator of a dependency constraint.
#[derive(Debug, PartialEq, Eq, Structural, Clone, Copy)]
pub enum VRel {
    GreaterOrEqual,
    Greater,
    LesserOrEqual,
    Lesser,
    Equal,
}

/// Why a dependency expression was rejected.
#[derive(Debug, PartialEq, Eq, Structural, Clone, Copy)]
pub enum DepError {
    /// A character other than `(`, `[` or `<` followed the package name.
    GarbageAfterPackageName,
    /// A parenthesized version clause closed without any content.
    MissingVersion,
    /// The relation token was none of `>=`, `>`, `>>`, `<=`, `<`, `<<`, `=`.
    InvalidRelation,
    /// The text inside a version clause was not a valid version.
    VersionParseFailed,
    /// A character other than `[` followed the version clause.
    GarbageAfterVersion,
    /// A bracketed architecture clause was empty.
    EmptyArch,
    /// A character followed the end of the dependency.
    GarbageAfterArch,
}

/// One package alternative of a dependency: the package name with its
/// optional version constraint, architecture restriction and build-profile
/// condition.
#[derive(Debug, PartialEq, Clone)]
pub struct SingleDependency {
    pub package: String,
    pub version: Option<(VRel, Version)>,
    pub arch: Option<String>,
    pub condition: Option<String>,
}

/// The mathematical value of a `SingleDependency`.
pub ghost struct DepModel {
    pub package: Seq<char>,
    pub version: Option<(VRel, VersionModel)>,
    pub arch: Option<Seq<char>>,
    pub condition: Option<Seq<char>>,
}

impl View for SingleDependency {
    type V = DepModel;

    open spec fn view(&self) -> DepModel {
        DepModel {
            package: self.package@,
            version: match self.version {
                Some((rel, v)) => Some((rel, v@)),
                None => None,
            },
            arch: match self.arch {
                Some(a) => Some(a@),
                None => None,
            },
            condition: match self.condition {
                Some(c) => Some(c@),
                None => None,
            },
        }
    }
}

/// An OR-group: package alternatives that each satisfy the dependency.
#[derive(Debug, PartialEq, Clone)]
pub struct Dependency {
    pub alternatives: Vec<SingleDependency>,
}

impl View for Dependency {
    type V = Seq<DepModel>;

    open spec fn view(&self) -> Seq<DepModel> {
        Seq::new(self.alternatives@.len(), |i: int| self.alternatives@[i]@)
    }
}

/// The states of the dependency scanner.
#[derive(Debug, Clone, Copy)]
pub enum ScanPhase {
    PackageName,
    PreVersion,
    InVersionRel,
    InVersionDef,
    PreArch,
    InArch,
    PreDependencyCondition,
    InDependencyCondition,
    Done,
}

/// The whole state of the dependency scanner: the phase, the fields
/// collected so far, and the buffers still being filled.
pub ghost struct ScanState {
    pub phase: ScanPhase,
    pub package: Seq<char>,
    pub version: Option<(VRel, VersionModel)>,
    pub arch: Option<Seq<char>>,
    pub condition: Option<Seq<char>>,
    pub vrel: Seq<char>,
    pub vdef: Seq<char>,
    pub arch_buf: Seq<char>,
}

/// Where the scanner starts: reading the package name, nothing collected.
pub open spec fn init_scan_state() -> ScanState {
    ScanState {
        phase: ScanPhase::PackageName,
        package: Seq::empty(),
        version: None,
        arch: None,
        condition: None,
        vrel: Seq::empty(),
        vdef: Seq::empty(),
        arch_buf: Seq::empty(),
    }
}

/// The version relation named by a relation token. The single-character
/// forms `>` and `<` are legacy aliases of `>=` and `<=`.
pub open spec fn rel_of(v: Seq<char>) -> Option<VRel> {
    if v == ">="@ || v == ">"@ {
        Some(VRel::GreaterOrEqual)
    } else if v == ">>"@ {
        Some(VRel::Greater)
    } else if v == "<="@ || v == "<"@ {
        Some(VRel::LesserOrEqual)
    } else if v == "<<"@ {
        Some(VRel::Lesser)
    } else if v == "="@ {
        Some(VRel::Equal)
    } else {
        None
    }
}

/// A build-time substitution placeholder: such a version clause names no
/// constraint at all.
pub open spec fn is_version_placeholder(v: Seq<char>) -> bool {
    v == "${binary:Version}"@ || v == "${source:Version}"@
}

/// One step of the dependency scanner on one character.
pub open spec fn scan_step(st: ScanState, c: char) -> Result<ScanState, DepError> {
    match st.phase {
        ScanPhase::PackageName => if is_space(c) {
            Ok(ScanState { phase: ScanPhase::PreVersion, ..st })
        } else if c == '(' {
            Ok(ScanState { phase: ScanPhase::InVersionRel, ..st })
        } else {
            Ok(ScanState { package: st.package.push(c), ..st })
        },
        ScanPhase::PreVersion => if is_space(c) {
            Ok(st)
        } else if c == '(' {
            Ok(ScanState { phase: ScanPhase::InVersionRel, ..st })
        } else if c == '<' {
            Ok(
                ScanState {
                    phase: ScanPhase::InDependencyCondition,
                    condition: Some(Seq::empty()),
                    ..st
                },
            )
        } else if c == '[' {
            Ok(ScanState { phase: ScanPhase::InArch, ..st })
        } else {
            Err(DepError::GarbageAfterPackageName)
        },
        ScanPhase::InVersionRel => if c == '>' || c == '<' || c == '=' {
            Ok(ScanState { vrel: st.vrel.push(c), ..st })
        } else if c == ')' {
            Err(DepError::MissingVersion)
        } else {
            Ok(ScanState { phase: ScanPhase::InVersionDef, vdef: st.vdef.push(c), ..st })
        },
        ScanPhase::InVersionDef => if c == ')' {
            if is_version_placeholder(trim_spec(st.vdef)) {
                Ok(st)
            } else {
                match spec_parse_version(trim_spec(st.vdef)) {
                    None => Err(DepError::VersionParseFailed),
                    Some(vm) => match rel_of(st.vrel) {
                        None => Err(DepError::InvalidRelation),
                        Some(rel) => Ok(
                            ScanState {
                                phase: ScanPhase::PreArch,
                                version: Some((rel, vm)),
                                ..st
                            },
                        ),
                    },
                }
            }
        } else {
            Ok(ScanState { vdef: st.vdef.push(c), ..st })
        },
        ScanPhase::PreArch => if is_space(c) {
            Ok(st)
        } else if c == '[' {
            Ok(ScanState { phase: ScanPhase::InArch, ..st })
        } else {
            Err(DepError::GarbageAfterVersion)
        },
        ScanPhase::InArch => if c == ']' {
            if trim_spec(st.arch_buf).len() == 0 {
                Err(DepError::EmptyArch)
            } else {
                Ok(
                    ScanState {
                        phase: ScanPhase::PreDependencyCondition,
                        arch: Some(trim_spec(st.arch_buf)),
                        ..st
                    },
                )
            }
        } else {
            Ok(ScanState { arch_buf: st.arch_buf.push(c), ..st })
        },
        ScanPhase::PreDependencyCondition => if is_space(c) {
            Ok(st)
        } else if c == '<' {
            Ok(
                ScanState {
                    phase: ScanPhase::InDependencyCondition,
                    condition: Some(Seq::empty()),
                    ..st
                },
            )
        } else {
            Ok(ScanState { phase: ScanPhase::Done, ..st })
        },
        ScanPhase::InDependencyCondition => if c == '>' {
            Ok(ScanState { phase: ScanPhase::Done, ..st })
        } else {
            Ok(
                ScanState {
                    condition: match st.condition {
                        Some(cs) => Some(cs.push(c)),
                        None => Some(seq![c]),
                    },
                    ..st
                },
            )
        },
        ScanPhase::Done => if is_space(c) {
            Ok(st)
        } else {
            Err(DepError::GarbageAfterArch)
        },
    }
}

/// The scanner run over the remaining characters, stopped by the first
/// error.
pub open spec fn scan_from(st: ScanState, s: Seq<char>) -> Result<ScanState, DepError>
    decreases s.len(),
{
    if s.len() == 0 {
        Ok(st)
    } else {
        match scan_step(st, s[0]) {
            Err(e) => Err(e),
            Ok(st2) => scan_from(st2, s.drop_first()),
        }
    }
}

/// The dependency a finished scan describes.
pub open spec fn dep_of_state(st: ScanState) -> DepModel {
    DepModel { package: st.package, version: st.version, arch: st.arch, condition: st.condition }
}

/// What parsing one dependency yields: the scanner run over the whole text
/// from its initial state.
pub open spec fn spec_parse_single_dep(s: Seq<char>) -> Result<DepModel, DepError> {
    match scan_from(init_scan_state(), s) {
        Err(e) => Err(e),
        Ok(st) => Ok(dep_of_state(st)),
    }
}

/// The scanner state that the parser's local variables stand for.
spec fn cur_scan_state(
    phase: ScanPhase,
    package: &String,
    version: &Option<(VRel, Version)>,
    arch: &Option<String>,
    condition: &Option<String>,
    vrel: &String,
    vdef: &String,
    arch_buf: &String,
) -> ScanState {
    ScanState {
        phase,
        package: package@,
        version: match version {
            Some((rel, v)) => Some((*rel, v@)),
            None => None,
        },
        arch: match arch {
            Some(a) => Some(a@),
            None => None,
        },
        condition: match condition {
            Some(cs) => Some(cs@),
            None => None,
        },
        vrel: vrel@,
        vdef: vdef@,
        arch_buf: arch_buf@,
    }
}

/// Parses one dependency, such as `libc6 (>= 2.28) [linux-any] <!stage1>`.
pub fn parse_single_dep(s: &str) -> (r: Result<SingleDependency, DepError>)
    ensures
        match spec_parse_single_dep(s@) {
            Ok(d) => r is Ok && r->Ok_0@ == d,
            Err(e) => r is Err && r->Err_0 == e,
        },
{
    let n = s.unicode_len();
    let mut phase = ScanPhase::PackageName;
    let mut package = String::new();
    let mut version: Option<(VRel, Version)> = None;
    let mut arch: Option<String> = None;
    let mut condition: Option<String> = None;
    let mut vrel = String::new();
    let mut vdef = String::new();
    let mut arch_buf = String::new();
    let mut i: usize = 0;
    proof {
        assert(s@.skip(0int) =~= s@);
        let st0 = cur_scan_state(
            phase,
            &package,
            &version,
            &arch,
            &condition,
            &vrel,
            &vdef,
            &arch_buf,
        );
        assert(st0.package =~= init_scan_state().package);
        assert(st0.vrel =~= init_scan_state().vrel);
        assert(st0.vdef =~= init_scan_state().vdef);
        assert(st0.arch_buf =~= init_scan_state().arch_buf);
        assert(st0 == init_scan_state());
    }
    while i < n
        invariant
            0 <= i <= n,
            n == s@.len(),
            scan_from(
                cur_scan_state(phase, &package, &version, &arch, &condition, &vrel, &vdef, &arch_buf),
                s@.skip(i as int),
            ) == scan_from(init_scan_state(), s@),
        decreases n - i,
    {
        let ghost st_pre = cur_scan_state(
            phase,
            &package,
            &version,
            &arch,
            &condition,
            &vrel,
            &vdef,
            &arch_buf,
        );
        proof {
            assert(s@.skip(i as int).len() > 0);
            assert(s@.skip(i as int)[0] == s@[i as int]);
            assert(s@.skip(i as int).drop_first() =~= s@.skip(i + 1));
        }
        let c = s.get_char(i);
        match phase {
            ScanPhase::PackageName => {
                if is_space_char(c) {
                    phase = ScanPhase::PreVersion;
                } else if c == '(' {
                    phase = ScanPhase::InVersionRel;
                } else {
                    package.push(c);
                }
            },
            ScanPhase::PreVersion => {
                if is_space_char(c) {
                } else if c == '(' {
                    phase = ScanPhase::InVersionRel;
                } else if c == '<' {
                    phase = ScanPhase::InDependencyCondition;
                    condition = Some(String::new());
                } else if c == '[' {
                    phase = ScanPhase::InArch;
                } else {
                    return Err(DepError::GarbageAfterPackageName);
                }
            },
            ScanPhase::InVersionRel => {
                if c == '>' || c == '<' || c == '=' {
                    vrel.push(c);
                } else if c == ')' {
                    return Err(DepError::MissingVersion);
                } else {
                    phase = ScanPhase::InVersionDef;
                    vdef.push(c);
                }
            },
            ScanPhase::InVersionDef => {
                if c == ')' {
                    let trimmed = trim_str(vdef.as_str());
                    if eq_str(trimmed, "${binary:Version}") || eq_str(
                        trimmed,
                        "${source:Version}",
                    ) {
                        // a substitution placeholder names no constraint:
                        // the scanner stands as it is
                    } else {
                        let ver = match Version::parse(trimmed) {
                            Ok(v) => v,
                            Err(_) => {
                                return Err(DepError::VersionParseFailed);
                            },
                        };
                        let rel = if eq_str(vrel.as_str(), ">=") || eq_str(vrel.as_str(), ">") {
                            VRel::GreaterOrEqual
                        } else if eq_str(vrel.as_str(), ">>") {
                            VRel::Greater
                        } else if eq_str(vrel.as_str(), "<=") || eq_str(vrel.as_str(), "<") {
                            VRel::LesserOrEqual
                        } else if eq_str(vrel.as_str(), "<<") {
                            VRel::Lesser
                        } else if eq_str(vrel.as_str(), "=") {
                            VRel::Equal
                        } else {
                            return Err(DepError::InvalidRelation);
                        };
                        version = Some((rel, ver));
                        phase = ScanPhase::PreArch;
                    }
                } else {
                    vdef.push(c);
                }
            },
            ScanPhase::PreArch => {
                if is_space_char(c) {
                } else if c == '[' {
                    phase = ScanPhase::InArch;
                } else {
                    return Err(DepError::GarbageAfterVersion);
                }
            },
            ScanPhase::InArch => {
                if c == ']' {
                    let t = trim_str(arch_buf.as_str());
                    if t.unicode_len() == 0 {
                        return Err(DepError::EmptyArch);
                    }
                    arch = Some(String::from_str(t));
                    phase = ScanPhase::PreDependencyCondition;
                } else {
                    arch_buf.push(c);
                }
            },
            ScanPhase::PreDependencyCondition => {
                if is_space_char(c) {
                } else if c == '<' {
                    phase = ScanPhase::InDependencyCondition;
                    condition = Some(String::new());
                } else {
                    phase = ScanPhase::Done;
                }
            },
            ScanPhase::InDependencyCondition => {
                if c == '>' {
                    phase = ScanPhase::Done;
                } else {
                    condition = match condition {
                        Some(mut cs) => {
                            cs.push(c);
                            Some(cs)
                        },
                        None => {
                            let mut cs = String::new();
                            cs.push(c);
                            proof {
                                assert(cs@ =~= seq![c]);
                            }
                            Some(cs)
                        },
                    };
                }
            },
            ScanPhase::Done => {
                if is_space_char(c) {
                } else {
                    return Err(DepError::GarbageAfterArch);
                }
            },
        }
        proof {
            let st_post = cur_scan_state(
                phase,
                &package,
                &version,
                &arch,
                &condition,
                &vrel,
                &vdef,
                &arch_buf,
            );
            assert(scan_step(st_pre, s@[i as int]) == Ok::<ScanState, DepError>(st_post));
        }
        i += 1;
    }
    proof {
        assert(s@.skip(n as int) =~= Seq::<char>::empty());
    }
    let result = SingleDependency { package, version, arch, condition };
    proof {
        assert(result@ == dep_of_state(scan_from(init_scan_state(), s@)->Ok_0));
    }
    Ok(result)
}

/// The segments of `s` between occurrences of `sep`, as `str::split` yields
/// them: one segment more than there are separators, empty segments kept.
pub open spec fn split_char_seq(s: Seq<char>, sep: char) -> Seq<Seq<char>>
    decreases s.len(),
    via split_char_seq_decreases
{
    match find_char(s, sep) {
        None => seq![s],
        Some(i) => seq![s.take(i)] + split_char_seq(s.subrange(i + 1, s.len() as int), sep),
    }
}

#[via_fn]
proof fn split_char_seq_decreases(s: Seq<char>, sep: char) {
    lemma_find_char(s, sep);
}

/// The alternatives of one OR-group, each trimmed and parsed; the first
/// failure aborts the group.
pub open spec fn spec_parse_alternatives(parts: Seq<Seq<char>>) -> Result<Seq<DepModel>, DepError>
    decreases parts.len(),
{
    if parts.len() == 0 {
        Ok(Seq::empty())
    } else {
        match spec_parse_single_dep(trim_spec(parts[0])) {
            Err(e) => Err(e),
            Ok(d) => match spec_parse_alternatives(parts.drop_first()) {
                Err(e) => Err(e),
                Ok(ds) => Ok(seq![d] + ds),
            },
        }
    }
}

/// The AND-groups of a dependency list, each trimmed, split on pipes and
/// parsed; the first failure aborts the list.
pub open spec fn spec_parse_groups(groups: Seq<Seq<char>>) -> Result<
    Seq<Seq<DepModel>>,
    DepError,
>
    decreases groups.len(),
{
    if groups.len() == 0 {
        Ok(Seq::empty())
    } else {
        match spec_parse_alternatives(split_char_seq(trim_spec(groups[0]), '|')) {
            Err(e) => Err(e),
            Ok(alts) => match spec_parse_groups(groups.drop_first()) {
                Err(e) => Err(e),
                Ok(gs) => Ok(seq![alts] + gs),
            },
        }
    }
}

/// What parsing a dependency list yields: the comma-separated groups, each
/// an OR-group of pipe-separated alternatives.
pub open spec fn spec_parse_dep_list(s: Seq<char>) -> Result<Seq<Seq<DepModel>>, DepError> {
    spec_parse_groups(split_char_seq(s, ','))
}

/// The OR-groups a vector of dependencies stands for.
pub open spec fn dep_list_view(v: &Vec<Dependency>) -> Seq<Seq<DepModel>> {
    Seq::new(v@.len(), |i: int| v@[i]@)
}

/// Parses one OR-group whose surrounding white space is already removed.
fn parse_group(g: &str) -> (r: Result<Dependency, DepError>)
    ensures
        match spec_parse_alternatives(split_char_seq(g@, '|')) {
            Ok(alts) => r is Ok && r->Ok_0@ == alts,
            Err(e) => r is Err && r->Err_0 == e,
        },
{
    let mut alternatives: Vec<SingleDependency> = Vec::new();
    let mut rest: &str = g;
    let mut done = false;
    proof {
        assert(alternatives@ =~= Seq::<SingleDependency>::empty());
    }
    while !done
        invariant
            !done ==> match spec_parse_alternatives(split_char_seq(rest@, '|')) {
                Ok(alts) => spec_parse_alternatives(split_char_seq(g@, '|')) == Ok::<
                    Seq<DepModel>,
                    DepError,
                >(Dependency { alternatives }@ + alts),
                Err(e) => spec_parse_alternatives(split_char_seq(g@, '|')) == Err::<
                    Seq<DepModel>,
                    DepError,
                >(e),
            },
            done ==> spec_parse_alternatives(split_char_seq(g@, '|')) == Ok::<
                Seq<DepModel>,
                DepError,
            >(Dependency { alternatives }@),
        decreases rest@.len() + (if done { 0int } else { 1int }),
    {
        proof {
            lemma_find_char(rest@, '|');
        }
        let ghost pre_alts = Dependency { alternatives }@;
        match find_char_str(rest, '|') {
            Some(k) => {
                let rn = rest.unicode_len();
                let seg = rest.substring_char(0, k);
                let next = rest.substring_char(k + 1, rn);
                let one = match parse_single_dep(trim_str(seg)) {
                    Ok(d) => d,
                    Err(e) => {
                        return Err(e);
                    },
                };
                alternatives.push(one);
                proof {
                    assert(seg@ =~= rest@.take(k as int));
                    let parts = split_char_seq(rest@, '|');
                    assert(parts[0] == rest@.take(k as int));
                    assert(parts.drop_first() =~= split_char_seq(next@, '|'));
                    assert(Dependency { alternatives }@ =~= pre_alts.push(one@));
                    match spec_parse_alternatives(split_char_seq(next@, '|')) {
                        Ok(alts) => {
                            assert(pre_alts.push(one@) + alts =~= pre_alts + (seq![one@] + alts));
                        },
                        Err(_) => {},
                    }
                }
                rest = next;
            },
            None => {
                let one = match parse_single_dep(trim_str(rest)) {
                    Ok(d) => d,
                    Err(e) => {
                        return Err(e);
                    },
                };
                alternatives.push(one);
                done = true;
                proof {
                    let parts = split_char_seq(rest@, '|');
                    assert(parts =~= seq![rest@]);
                    assert(parts[0] == rest@);
                    assert(parts.drop_first() =~= Seq::<Seq<char>>::empty());
                    assert(spec_parse_alternatives(Seq::<Seq<char>>::empty()) == Ok::<
                        Seq<DepModel>,
                        DepError,
                    >(Seq::empty()));
                    assert(Dependency { alternatives }@ =~= pre_alts.push(one@));
                    assert(pre_alts.push(one@) =~= pre_alts + (seq![one@]
                        + Seq::<DepModel>::empty()));
                }
            },
        }
    }
    Ok(Dependency { alternatives })
}

/// Parses a dependency list: groups separated by commas, alternatives
/// within a group separated by pipes, as in `foo (>= 3.2) | bar, baz`.
pub fn parse_dep_list(s: &str) -> (r: Result<Vec<Dependency>, DepError>)
    ensures
        match spec_parse_dep_list(s@) {
            Ok(gs) => r is Ok && dep_list_view(&r->Ok_0) == gs,
            Err(e) => r is Err && r->Err_0 == e,
        },
{
    let mut result: Vec<Dependency> = Vec::new();
    let mut rest: &str = s;
    let mut done = false;
    proof {
        assert(dep_list_view(&result) =~= Seq::<Seq<DepModel>>::empty());
    }
    while !done
        invariant
            !done ==> match spec_parse_groups(split_char_seq(rest@, ',')) {
                Ok(gs) => spec_parse_dep_list(s@) == Ok::<Seq<Seq<DepModel>>, DepError>(
                    dep_list_view(&result) + gs,
                ),
                Err(e) => spec_parse_dep_list(s@) == Err::<Seq<Seq<DepModel>>, DepError>(e),
            },
            done ==> spec_parse_dep_list(s@) == Ok::<Seq<Seq<DepModel>>, DepError>(
                dep_list_view(&result),
            ),
        decreases rest@.len() + (if done { 0int } else { 1int }),
    {
        proof {
            lemma_find_char(rest@, ',');
        }
        let ghost pre_groups = dep_list_view(&result);
        match find_char_str(rest, ',') {
            Some(k) => {
                let rn = rest.unicode_len();
                let seg = rest.substring_char(0, k);
                let next = rest.substring_char(k + 1, rn);
                let group = match parse_group(trim_str(seg)) {
                    Ok(d) => d,
                    Err(e) => {
                        return Err(e);
                    },
                };
                result.push(group);
                proof {
                    assert(seg@ =~= rest@.take(k as int));
                    let groups = split_char_seq(rest@, ',');
                    assert(groups[0] == rest@.take(k as int));
                    assert(groups.drop_first() =~= split_char_seq(next@, ','));
                    assert(dep_list_view(&result) =~= pre_groups.push(group@));
                    match spec_parse_groups(split_char_seq(next@, ',')) {
                        Ok(gs) => {
                            assert(pre_groups.push(group@) + gs =~= pre_groups + (seq![group@]
                                + gs));
                        },
                        Err(_) => {},
                    }
                }
                rest = next;
            },
            None => {
                let group = match parse_group(trim_str(rest)) {
                    Ok(d) => d,
                    Err(e) => {
                        return Err(e);
                    },
                };
                result.push(group);
                done = true;
                proof {
                    let groups = split_char_seq(rest@, ',');
                    assert(groups =~= seq![rest@]);
                    assert(groups[0] == rest@);
                    assert(groups.drop_first() =~= Seq::<Seq<char>>::empty());
                    assert(spec_parse_groups(Seq::<Seq<char>>::empty()) == Ok::<
                        Seq<Seq<DepModel>>,
                        DepError,
                    >(Seq::empty()));
                    assert(dep_list_view(&result) =~= pre_groups.push(group@));
                    assert(pre_groups.push(group@) =~= pre_groups + (seq![group@] + Seq::<
                        Seq<DepModel>,
                    >::empty()));
                }
            },
        }
    }
    Ok(result)
}

/// The canonical token of a relation: always the two-character form, never
/// a legacy alias.
pub open spec fn rel_token(r: VRel) -> Seq<char> {
    match r {
        VRel::GreaterOrEqual => seq!['>', '='],
        VRel::Greater => seq!['>', '>'],
        VRel::LesserOrEqual => seq!['<', '='],
        VRel::Lesser => seq!['<', '<'],
        VRel::Equal => seq!['='],
    }
}

impl VRel {
    /// The canonical token of this relation.
    pub fn to_string(&self) -> (r: String)
        ensures
            r@ == rel_token(*self),
    {
        let mut out = String::new();
        match self {
            VRel::GreaterOrEqual => {
                out.push('>');
                out.push('=');
            },
            VRel::Greater => {
                out.push('>');
                out.push('>');
            },
            VRel::LesserOrEqual => {
                out.push('<');
                out.push('=');
            },
            VRel::Lesser => {
                out.push('<');
                out.push('<');
            },
            VRel::Equal => {
                out.push('=');
            },
        }
        proof {
            assert(out@ =~= rel_token(*self));
        }
        out
    }
}

/// The text of one dependency: the package name, then the version clause
/// when there is one, then the architecture clause when there is one. The
/// build-profile condition is not re-emitted.
pub open spec fn render_dep(d: DepModel) -> Seq<char> {
    let with_version = match d.version {
        Some((rel, vm)) => d.package + seq![' ', '('] + rel_token(rel) + seq![' ']
            + render_version(vm) + seq![')'],
        None => d.package,
    };
    match d.arch {
        Some(a) => with_version + seq![' ', '['] + a + seq![']'],
        None => with_version,
    }
}

impl SingleDependency {
    /// The text of this dependency.
    pub fn to_string(&self) -> (r: String)
        ensures
            r@ == render_dep(self@),
    {
        let mut out = String::new();
        out.append(self.package.as_str());
        match &self.version {
            Some((rel, ver)) => {
                out.push(' ');
                out.push('(');
                out.append(rel.to_string().as_str());
                out.push(' ');
                out.append(ver.to_string().as_str());
                out.push(')');
            },
            None => {},
        }
        match &self.arch {
            Some(a) => {
                out.push(' ');
                out.push('[');
                out.append(a.as_str());
                out.push(']');
            },
            None => {},
        }
        proof {
            assert(out@ =~= render_dep(self@));
        }
        out
    }
}

/// The text of an OR-group: its alternatives joined by ` | `.
pub open spec fn render_dep_group(alts: Seq<DepModel>) -> Seq<char>
    decreases alts.len(),
{
    if alts.len() == 0 {
        Seq::empty()
    } else if alts.len() == 1 {
        render_dep(alts[0])
    } else {
        render_dep(alts[0]) + seq![' ', '|', ' '] + render_dep_group(alts.drop_first())
    }
}

/// Joining one more alternative appends a separator and its text.
proof fn lemma_render_dep_group_push(p: Seq<DepModel>, e: DepModel)
    requires
        p.len() > 0,
    ensures
        render_dep_group(p.push(e)) == render_dep_group(p) + seq![' ', '|', ' '] + render_dep(e),
    decreases p.len(),
{
    assert(p.push(e)[0] == p[0]);
    assert(p.push(e).drop_first() =~= p.drop_first().push(e));
    if p.len() == 1 {
        assert(p.drop_first() =~= Seq::<DepModel>::empty());
        assert(p.drop_first().push(e) =~= seq![e]);
        assert(render_dep_group(seq![e]) == render_dep(e));
        assert(render_dep_group(p.push(e)) =~= render_dep_group(p) + seq![' ', '|', ' ']
            + render_dep(e));
    } else {
        lemma_render_dep_group_push(p.drop_first(), e);
        assert(render_dep_group(p.push(e)) =~= render_dep_group(p) + seq![' ', '|', ' ']
            + render_dep(e));
    }
}

impl Dependency {
    /// The text of this OR-group.
    pub fn to_string(&self) -> (r: String)
        ensures
            r@ == render_dep_group(self@),
    {
        let mut out = String::new();
        let n = self.alternatives.len();
        let mut i: usize = 0;
        proof {
            assert(self@.take(0int) =~= Seq::<DepModel>::empty());
            assert(out@ =~= render_dep_group(self@.take(0int)));
        }
        while i < n
            invariant
                0 <= i <= n,
                n == self.alternatives@.len(),
                out@ == render_dep_group(self@.take(i as int)),
            decreases n - i,
        {
            proof {
                assert(self@.take(i + 1) =~= self@.take(i as int).push(self@[i as int]));
                if i > 0 {
                    lemma_render_dep_group_push(self@.take(i as int), self@[i as int]);
                }
            }
            if i > 0 {
                out.push(' ');
                out.push('|');
                out.push(' ');
            }
            out.append(self.alternatives[i].to_string().as_str());
            proof {
                if i == 0 {
                    assert(self@.take(1int) =~= seq![self@[0int]]);
                    assert(render_dep_group(seq![self@[0int]]) == render_dep(self@[0int]));
                    assert(out@ =~= render_dep_group(self@.take(1int)));
                } else {
                    assert(out@ =~= render_dep_group(self@.take(i + 1)));
                }
            }
            i += 1;
        }
        proof {
            assert(self@.take(n as int) =~= self@);
        }
        out
    }
}

} // verus!
