use vstd::prelude::*;

use vstd::string::StringExecFns;

verus! {

/// The type of a value of the rules language: a single number, or a map
/// from the values of a named key type (such as `Finger`) to numbers.
#[derive(Debug, PartialEq, Eq)]
pub enum Ty {
    Scalar,
    MapOf(String),
}

impl Clone for Ty {
    fn clone(&self) -> (res: Self)
        ensures
            res == *self,
    {
        match self {
            Ty::Scalar => Ty::Scalar,
            Ty::MapOf(kind) => Ty::MapOf(kind.clone()),
        }
    }
}

impl Ty {
    pub fn is_scalar(&self) -> (res: bool)
        ensures
            res == (*self is Scalar),
    {
        match self {
            Ty::Scalar => true,
            Ty::MapOf(_) => false,
        }
    }

    pub fn is_map(&self) -> (res: bool)
        ensures
            res == (*self is MapOf),
    {
        match self {
            Ty::Scalar => false,
            Ty::MapOf(_) => true,
        }
    }
}

/// A piece of Rust source carried verbatim by the rules (a condition or a
/// value), evaluated by the code generated from the rules.
#[derive(Debug, PartialEq, Eq)]
pub struct RustExpression(pub String);

impl Clone for RustExpression {
    fn clone(&self) -> (res: Self)
        ensures
            res == *self,
    {
        RustExpression(self.0.clone())
    }
}

/// Clones an optional Rust expression, keeping it equal.
fn clone_condition(condition: &Option<RustExpression>) -> (res: Option<RustExpression>)
    ensures
        res == *condition,
{
    match condition {
        Some(expression) => Some(expression.clone()),
        None => None,
    }
}

/// How a metric accumulates: it sets its value, or adds to it.
#[derive(Debug, PartialEq, Eq)]
pub enum MetricValue {
    SetTo(RustExpression),
    Add(RustExpression),
}

impl Clone for MetricValue {
    fn clone(&self) -> (res: Self)
        ensures
            res == *self,
    {
        match self {
            MetricValue::SetTo(expression) => MetricValue::SetTo(expression.clone()),
            MetricValue::Add(expression) => MetricValue::Add(expression.clone()),
        }
    }
}

impl Default for MetricValue {
    /// A metric that states no value adds the n-gram's count.
    fn default() -> (res: Self)
        ensures
            res matches MetricValue::Add(expression) && expression.0@ == "count"@,
    {
        MetricValue::Add(RustExpression("count".to_owned()))
    }
}

/// The key that a metric groups its values by, and the type of that key.
#[derive(Debug, PartialEq, Eq)]
pub struct MetricGroup {
    pub key: String,
    pub kind: String,
}

impl Clone for MetricGroup {
    fn clone(&self) -> (res: Self)
        ensures
            res == *self,
    {
        MetricGroup { key: self.key.clone(), kind: self.kind.clone() }
    }
}

/// The n-grams that a metric looks at; a bigram or trigram metric may be
/// restricted to the n-grams of one kind.
#[derive(Debug, PartialEq, Eq)]
pub enum MetricCategory {
    Unigram,
    Bigram(Option<String>),
    Trigram(Option<String>),
}

impl Clone for MetricCategory {
    fn clone(&self) -> (res: Self)
        ensures
            res == *self,
    {
        match self {
            MetricCategory::Unigram => MetricCategory::Unigram,
            MetricCategory::Bigram(None) => MetricCategory::Bigram(None),
            MetricCategory::Bigram(Some(kind)) => MetricCategory::Bigram(Some(kind.clone())),
            MetricCategory::Trigram(None) => MetricCategory::Trigram(None),
            MetricCategory::Trigram(Some(kind)) => MetricCategory::Trigram(Some(kind.clone())),
        }
    }
}

impl MetricCategory {
    pub fn is_unigram(&self) -> (res: bool)
        ensures
            res == (*self is Unigram),
    {
        match self {
            MetricCategory::Unigram => true,
            _ => false,
        }
    }

    pub fn is_bigram_no_kind(&self) -> (res: bool)
        ensures
            res == (*self == MetricCategory::Bigram(None)),
    {
        match self {
            MetricCategory::Bigram(None) => true,
            _ => false,
        }
    }

    pub fn is_bigram_kind(&self, kind: &str) -> (res: bool)
        ensures
            res == (*self matches MetricCategory::Bigram(Some(k)) && k@ == kind@),
    {
        match self {
            MetricCategory::Bigram(Some(k)) => *k == kind.to_owned(),
            _ => false,
        }
    }

    pub fn is_trigram_no_kind(&self) -> (res: bool)
        ensures
            res == (*self == MetricCategory::Trigram(None)),
    {
        match self {
            MetricCategory::Trigram(None) => true,
            _ => false,
        }
    }

    pub fn is_trigram_kind(&self, kind: &str) -> (res: bool)
        ensures
            res == (*self matches MetricCategory::Trigram(Some(k)) && k@ == kind@),
    {
        match self {
            MetricCategory::Trigram(Some(k)) => *k == kind.to_owned(),
            _ => false,
        }
    }
}

/// A metric: what it counts, how, over which n-grams, and its type (a map
/// keyed by the group's kind when it is grouped, else a scalar).
#[derive(Debug, PartialEq, Eq)]
pub struct Metric {
    pub name: String,
    pub category: MetricCategory,
    pub value: MetricValue,
    pub condition: Option<RustExpression>,
    pub group: Option<MetricGroup>,
    pub ty: Ty,
}

/// The type of a metric with the given group.
pub open spec fn group_ty(group: Option<MetricGroup>) -> Ty {
    match group {
        Some(g) => Ty::MapOf(g.kind),
        None => Ty::Scalar,
    }
}

impl Metric {
    /// Builds a metric from its clauses: a metric without a value clause
    /// adds the count, and a grouped metric is a map keyed by the group's kind.
    pub fn new(
        name: String,
        category: MetricCategory,
        value: Option<MetricValue>,
        condition: Option<RustExpression>,
        group: Option<MetricGroup>,
    ) -> (res: Metric)
        ensures
            res.name == name,
            res.category == category,
            value matches Some(v) ==> res.value == v,
            value is None ==> (res.value matches MetricValue::Add(e) && e.0@ == "count"@),
            res.condition == condition,
            res.group == group,
            res.ty == group_ty(group),
    {
        let ty = match &group {
            Some(g) => Ty::MapOf(g.kind.clone()),
            None => Ty::Scalar,
        };
        let value = match value {
            Some(v) => v,
            None => MetricValue::default(),
        };
        Metric { name, category, value, condition, group, ty }
    }
}

/// Why a rules file is ill-typed.
#[derive(Debug, PartialEq, Eq)]
pub enum TypeError {
    /// A name that no metric, `let` or stat defines.
    UndefinedReference(String),
    /// `sum` of a name whose value is a scalar.
    SumOfScalar(String),
    /// `+` with an operand that is not a scalar: the two operand types.
    AddOfNonScalar(Ty, Ty),
    /// `percent` with an argument that is not a scalar.
    PercentOfNonScalar(Ty, Ty),
    /// `ratio` with an argument that is not a scalar.
    RatioOfNonScalar(Ty, Ty),
    /// `normalize` whose arguments are not a map and a scalar.
    NormalizeMismatch(Ty, Ty),
}

/// An environment: names with their types, in the order they were defined.
/// A later definition of a name hides the earlier ones.
pub open spec fn env_view(env: Seq<(String, Ty)>) -> Seq<(Seq<char>, Ty)> {
    env.map_values(|entry: (String, Ty)| (entry.0@, entry.1))
}

/// The type of `name` in an environment: that of its last definition.
pub open spec fn env_lookup(env: Seq<(Seq<char>, Ty)>, name: Seq<char>) -> Option<Ty>
    decreases env.len(),
{
    if env.len() == 0 {
        None
    } else if env.last().0 == name {
        Some(env.last().1)
    } else {
        env_lookup(env.drop_last(), name)
    }
}

/// Looks a name up in an environment, the latest definition first.
pub fn lookup(env: &Vec<(String, Ty)>, name: &String) -> (res: Option<Ty>)
    ensures
        res == env_lookup(env_view(env@), name@),
{
    let mut i: usize = env.len();
    assert(env@.subrange(0, i as int) =~= env@);
    while i > 0
        invariant
            i <= env.len(),
            env_lookup(env_view(env@), name@) == env_lookup(env_view(env@.subrange(0, i as int)), name@),
        decreases i,
    {
        let ghost prefix = env_view(env@.subrange(0, i as int));
        assert(env_view(env@.subrange(0, i - 1)) =~= prefix.drop_last());
        if env[i - 1].0 == *name {
            return Some(env[i - 1].1.clone());
        }
        i = i - 1;
    }
    None
}

/// An expression of the stats section.
#[derive(Debug, PartialEq, Eq)]
pub enum Expression {
    Ref(String),
    Sum { reference: String, condition: Option<RustExpression> },
    Add(Box<Expression>, Box<Expression>),
}

impl Clone for Expression {
    fn clone(&self) -> (res: Self)
        ensures
            res == *self,
        decreases self,
    {
        match self {
            Expression::Ref(name) => Expression::Ref(name.clone()),
            Expression::Sum { reference, condition } => Expression::Sum {
                reference: reference.clone(),
                condition: clone_condition(condition),
            },
            Expression::Add(a, b) => Expression::Add(
                Box::new((**a).clone()),
                Box::new((**b).clone()),
            ),
        }
    }
}

/// The sum of some terms, added from the left: `((t0 + t1) + t2) + ...`.
pub open spec fn left_sum(first: Expression, rest: Seq<Expression>) -> Expression
    decreases rest.len(),
{
    if rest.len() == 0 {
        first
    } else {
        Expression::Add(Box::new(left_sum(first, rest.drop_last())), Box::new(rest.last()))
    }
}

impl Expression {
    /// The expression `first + rest[0] + rest[1] + ...`, grouped from the
    /// left as the rules language reads a sum.
    pub fn sum_of(first: Expression, rest: Vec<Expression>) -> (sum: Expression)
        ensures
            sum == left_sum(first, rest@),
    {
        let mut sum = first;
        for i in 0..rest.len()
            invariant
                sum == left_sum(first, rest@.take(i as int)),
        {
            assert(rest@.take(i + 1).drop_last() =~= rest@.take(i as int));
            sum = Expression::Add(Box::new(sum), Box::new(rest[i].clone()));
        }
        assert(rest@.take(rest.len() as int) =~= rest@);
        sum
    }
}

/// The type of an expression: a reference has the type of its name, a
/// `sum` turns a map into a scalar, and `+` adds scalars.
pub open spec fn expression_ty(e: Expression, env: Seq<(Seq<char>, Ty)>) -> Result<Ty, TypeError>
    decreases e,
{
    match e {
        Expression::Ref(name) => match env_lookup(env, name@) {
            Some(ty) => Ok(ty),
            None => Err(TypeError::UndefinedReference(name)),
        },
        Expression::Sum { reference, condition } => match env_lookup(env, reference@) {
            Some(Ty::Scalar) => Err(TypeError::SumOfScalar(reference)),
            Some(_) => Ok(Ty::Scalar),
            None => Err(TypeError::UndefinedReference(reference)),
        },
        Expression::Add(a, b) => match expression_ty(*a, env) {
            Err(error) => Err(error),
            Ok(ty1) => match expression_ty(*b, env) {
                Err(error) => Err(error),
                Ok(ty2) => if ty1 is Scalar && ty2 is Scalar {
                    Ok(Ty::Scalar)
                } else {
                    Err(TypeError::AddOfNonScalar(ty1, ty2))
                },
            },
        },
    }
}

impl Expression {
    pub fn ty(&self, env: &Vec<(String, Ty)>) -> (res: Result<Ty, TypeError>)
        ensures
            res == expression_ty(*self, env_view(env@)),
        decreases self,
    {
        match self {
            Expression::Ref(name) => match lookup(env, name) {
                Some(ty) => Ok(ty),
                None => Err(TypeError::UndefinedReference(name.clone())),
            },
            Expression::Sum { reference, .. } => match lookup(env, reference) {
                Some(ty) => if ty.is_scalar() {
                    Err(TypeError::SumOfScalar(reference.clone()))
                } else {
                    Ok(Ty::Scalar)
                },
                None => Err(TypeError::UndefinedReference(reference.clone())),
            },
            Expression::Add(a, b) => {
                let ty1 = match a.ty(env) {
                    Ok(ty) => ty,
                    Err(error) => return Err(error),
                };
                let ty2 = match b.ty(env) {
                    Ok(ty) => ty,
                    Err(error) => return Err(error),
                };
                if ty1.is_scalar() && ty2.is_scalar() {
                    Ok(Ty::Scalar)
                } else {
                    Err(TypeError::AddOfNonScalar(ty1, ty2))
                }
            },
        }
    }
}

/// The value of a stat: a percentage, a ratio, a map divided by a scalar, or
/// another value by name.
#[derive(Debug, PartialEq, Eq)]
pub enum StatValue {
    Percent(Expression, Expression),
    Ratio(Expression, Expression),
    Normalize(Expression, Expression),
    Reference(String),
}

/// The type of a stat's value: `percent` and `ratio` take two scalars,
/// `normalize` a map and a scalar, and each has the type of its first
/// argument; a reference has the type of its name.
pub open spec fn stat_value_ty(v: StatValue, env: Seq<(Seq<char>, Ty)>) -> Result<Ty, TypeError> {
    match v {
        StatValue::Percent(e1, e2) => match (expression_ty(e1, env), expression_ty(e2, env)) {
            (Err(error), _) => Err(error),
            (Ok(_), Err(error)) => Err(error),
            (Ok(ty1), Ok(ty2)) => if ty1 is Scalar && ty2 is Scalar {
                Ok(ty1)
            } else {
                Err(TypeError::PercentOfNonScalar(ty1, ty2))
            },
        },
        StatValue::Ratio(e1, e2) => match (expression_ty(e1, env), expression_ty(e2, env)) {
            (Err(error), _) => Err(error),
            (Ok(_), Err(error)) => Err(error),
            (Ok(ty1), Ok(ty2)) => if ty1 is Scalar && ty2 is Scalar {
                Ok(ty1)
            } else {
                Err(TypeError::RatioOfNonScalar(ty1, ty2))
            },
        },
        StatValue::Normalize(e1, e2) => match (expression_ty(e1, env), expression_ty(e2, env)) {
            (Err(error), _) => Err(error),
            (Ok(_), Err(error)) => Err(error),
            (Ok(ty1), Ok(ty2)) => if ty1 is MapOf && ty2 is Scalar {
                Ok(ty1)
            } else {
                Err(TypeError::NormalizeMismatch(ty1, ty2))
            },
        },
        StatValue::Reference(name) => match env_lookup(env, name@) {
            Some(ty) => Ok(ty),
            None => Err(TypeError::UndefinedReference(name)),
        },
    }
}

/// A percent and a ratio are well typed exactly when both arguments are
/// scalars, and are then scalars; a normalize is well typed exactly when its
/// first argument is a map and its second a scalar, and is then that map; a
/// reference has the type of the name it refers to.
pub proof fn lemma_stat_value_typing(e1: Expression, e2: Expression, name: String, env: Seq<(Seq<char>, Ty)>)
    ensures
        stat_value_ty(StatValue::Percent(e1, e2), env) is Ok <==> (expression_ty(e1, env) == Ok::<Ty, TypeError>(Ty::Scalar)
            && expression_ty(e2, env) == Ok::<Ty, TypeError>(Ty::Scalar)),
        stat_value_ty(StatValue::Percent(e1, e2), env) is Ok ==> stat_value_ty(StatValue::Percent(e1, e2), env)
            == Ok::<Ty, TypeError>(Ty::Scalar),
        stat_value_ty(StatValue::Ratio(e1, e2), env) is Ok <==> (expression_ty(e1, env) == Ok::<Ty, TypeError>(Ty::Scalar)
            && expression_ty(e2, env) == Ok::<Ty, TypeError>(Ty::Scalar)),
        stat_value_ty(StatValue::Ratio(e1, e2), env) is Ok ==> stat_value_ty(StatValue::Ratio(e1, e2), env)
            == Ok::<Ty, TypeError>(Ty::Scalar),
        stat_value_ty(StatValue::Normalize(e1, e2), env) is Ok <==> (expression_ty(e1, env) matches Ok(t) && t is MapOf
            && expression_ty(e2, env) == Ok::<Ty, TypeError>(Ty::Scalar)),
        stat_value_ty(StatValue::Normalize(e1, e2), env) is Ok ==> stat_value_ty(StatValue::Normalize(e1, e2), env)
            == expression_ty(e1, env),
        stat_value_ty(StatValue::Reference(name), env) is Ok <==> env_lookup(env, name@) is Some,
        env_lookup(env, name@) matches Some(t) ==> stat_value_ty(StatValue::Reference(name), env) == Ok::<Ty, TypeError>(t),
{
}

/// A sum of two expressions is well typed exactly when both are scalars, and
/// is a scalar; `sum` of a name is well typed exactly when the name is a map,
/// and is a scalar; a reference has the type of its name.
pub proof fn lemma_expression_typing(a: Expression, b: Expression, name: String, condition: Option<RustExpression>, env: Seq<(Seq<char>, Ty)>)
    ensures
        expression_ty(Expression::Add(Box::new(a), Box::new(b)), env) is Ok <==> (expression_ty(a, env) == Ok::<Ty, TypeError>(
            Ty::Scalar,
        ) && expression_ty(b, env) == Ok::<Ty, TypeError>(Ty::Scalar)),
        expression_ty(Expression::Add(Box::new(a), Box::new(b)), env) is Ok ==> expression_ty(
            Expression::Add(Box::new(a), Box::new(b)),
            env,
        ) == Ok::<Ty, TypeError>(Ty::Scalar),
        expression_ty(Expression::Sum { reference: name, condition }, env) is Ok <==> (env_lookup(env, name@) matches Some(t)
            && t is MapOf),
        expression_ty(Expression::Sum { reference: name, condition }, env) is Ok ==> expression_ty(
            Expression::Sum { reference: name, condition },
            env,
        ) == Ok::<Ty, TypeError>(Ty::Scalar),
        expression_ty(Expression::Ref(name), env) is Ok <==> env_lookup(env, name@) is Some,
        env_lookup(env, name@) matches Some(t) ==> expression_ty(Expression::Ref(name), env) == Ok::<Ty, TypeError>(t),
{
}

/// Types both arguments of a two-argument stat, the first one first.
fn argument_types(e1: &Expression, e2: &Expression, env: &Vec<(String, Ty)>) -> (res: Result<(Ty, Ty), TypeError>)
    ensures
        match (expression_ty(*e1, env_view(env@)), expression_ty(*e2, env_view(env@))) {
            (Err(error), _) => res == Err::<(Ty, Ty), TypeError>(error),
            (Ok(_), Err(error)) => res == Err::<(Ty, Ty), TypeError>(error),
            (Ok(ty1), Ok(ty2)) => res == Ok::<(Ty, Ty), TypeError>((ty1, ty2)),
        },
{
    let ty1 = match e1.ty(env) {
        Ok(ty) => ty,
        Err(error) => return Err(error),
    };
    let ty2 = match e2.ty(env) {
        Ok(ty) => ty,
        Err(error) => return Err(error),
    };
    Ok((ty1, ty2))
}

impl StatValue {
    pub fn ty(&self, env: &Vec<(String, Ty)>) -> (res: Result<Ty, TypeError>)
        ensures
            res == stat_value_ty(*self, env_view(env@)),
    {
        match self {
            StatValue::Percent(e1, e2) => {
                let (ty1, ty2) = argument_types(e1, e2, env)?;
                if !ty1.is_scalar() || !ty2.is_scalar() {
                    return Err(TypeError::PercentOfNonScalar(ty1, ty2));
                }
                Ok(ty1)
            },
            StatValue::Ratio(e1, e2) => {
                let (ty1, ty2) = argument_types(e1, e2, env)?;
                if !ty1.is_scalar() || !ty2.is_scalar() {
                    return Err(TypeError::RatioOfNonScalar(ty1, ty2));
                }
                Ok(ty1)
            },
            StatValue::Normalize(e1, e2) => {
                let (ty1, ty2) = argument_types(e1, e2, env)?;
                if !(ty1.is_map() && ty2.is_scalar()) {
                    return Err(TypeError::NormalizeMismatch(ty1, ty2));
                }
                Ok(ty1)
            },
            StatValue::Reference(name) => match lookup(env, name) {
                Some(ty) => Ok(ty),
                None => Err(TypeError::UndefinedReference(name.clone())),
            },
        }
    }
}

impl Clone for StatValue {
    fn clone(&self) -> (res: Self)
        ensures
            res == *self,
    {
        match self {
            StatValue::Percent(e1, e2) => StatValue::Percent(e1.clone(), e2.clone()),
            StatValue::Ratio(e1, e2) => StatValue::Ratio(e1.clone(), e2.clone()),
            StatValue::Normalize(e1, e2) => StatValue::Normalize(e1.clone(), e2.clone()),
            StatValue::Reference(name) => StatValue::Reference(name.clone()),
        }
    }
}

/// A named stat of a section, with its type once the rules are checked.
#[derive(Debug, PartialEq, Eq, Clone)]
pub struct Stat {
    pub name: String,
    pub value: StatValue,
    pub ty: Ty,
}

/// A `let` of the stats: a name for an expression, usable by later lets
/// and by the stats.
#[derive(Debug, PartialEq, Eq, Clone)]
pub struct StatsLet {
    pub name: String,
    pub value: Expression,
}

/// A named group of stats.
#[derive(Debug, PartialEq, Eq, Clone)]
pub struct StatsSection {
    pub name: String,
    pub stats: Vec<Stat>,
}

#[derive(Debug, PartialEq, Eq, Clone)]
pub struct Stats {
    pub lets: Vec<StatsLet>,
    pub sections: Vec<StatsSection>,
}

/// An optimization target: a name and the stat it reads, written
/// `section.stat`, with the type of that stat once the rules are checked.
#[derive(Debug, PartialEq, Eq, Clone)]
pub struct Target {
    pub name: String,
    pub source: String,
    pub ty: Ty,
}

/// A checked rules file.
#[derive(Debug, PartialEq, Eq)]
pub struct Rules {
    pub metrics: Vec<Metric>,
    pub stats: Stats,
    pub targets: Vec<Target>,
}

/// The environment that the metrics define: each metric's name with its type.
pub open spec fn metrics_env(metrics: Seq<Metric>) -> Seq<(Seq<char>, Ty)> {
    metrics.map_values(|m: Metric| (m.name@, m.ty))
}

/// The environment after the lets, each typed in the environment that the
/// ones before it left; or the error of the first let that is ill-typed.
pub open spec fn lets_env(lets: Seq<StatsLet>, env: Seq<(Seq<char>, Ty)>) -> Result<Seq<(Seq<char>, Ty)>, TypeError>
    decreases lets.len(),
{
    if lets.len() == 0 {
        Ok(env)
    } else {
        match lets_env(lets.drop_last(), env) {
            Err(error) => Err(error),
            Ok(before) => match expression_ty(lets.last().value, before) {
                Err(error) => Err(error),
                Ok(ty) => Ok(before.push((lets.last().name@, ty))),
            },
        }
    }
}

/// The error of the first stat whose value is ill-typed, if any.
pub open spec fn stats_error(stats: Seq<Stat>, env: Seq<(Seq<char>, Ty)>) -> Option<TypeError>
    decreases stats.len(),
{
    if stats.len() == 0 {
        None
    } else {
        match stats_error(stats.drop_last(), env) {
            Some(error) => Some(error),
            None => match stat_value_ty(stats.last().value, env) {
                Err(error) => Some(error),
                Ok(_) => None,
            },
        }
    }
}

/// The error of the first ill-typed stat of the first section that has one.
pub open spec fn sections_error(sections: Seq<StatsSection>, env: Seq<(Seq<char>, Ty)>) -> Option<TypeError>
    decreases sections.len(),
{
    if sections.len() == 0 {
        None
    } else {
        match sections_error(sections.drop_last(), env) {
            Some(error) => Some(error),
            None => stats_error(sections.last().stats@, env),
        }
    }
}

/// `typed` is `stat` with the type of its value.
pub open spec fn stat_typed(stat: Stat, typed: Stat, env: Seq<(Seq<char>, Ty)>) -> bool {
    &&& typed.name == stat.name
    &&& typed.value == stat.value
    &&& stat_value_ty(stat.value, env) == Ok::<Ty, TypeError>(typed.ty)
}

/// `typed` is `section` with each stat typed.
pub open spec fn section_typed(section: StatsSection, typed: StatsSection, env: Seq<(Seq<char>, Ty)>) -> bool {
    &&& typed.name == section.name
    &&& typed.stats@.len() == section.stats@.len()
    &&& forall|j: int| 0 <= j < section.stats@.len()
        ==> #[trigger] stat_typed(section.stats@[j], typed.stats@[j], env)
}

/// The key under which a target finds a stat: `section.stat`.
pub open spec fn stat_key(section: Seq<char>, stat: Seq<char>) -> Seq<char> {
    section + seq!['.'] + stat
}

/// What the targets see of a section: each of its stats, in order, under
/// its key `section.stat`, with its type.
pub open spec fn section_entries(section: StatsSection) -> Seq<(Seq<char>, Ty)> {
    let stats = section.stats@;
    Seq::new(stats.len(), |j: int| (stat_key(section.name@, stats[j].name@), stats[j].ty))
}

/// The environment of the targets: the entries of each section, in order.
pub open spec fn sections_env(sections: Seq<StatsSection>) -> Seq<(Seq<char>, Ty)>
    decreases sections.len(),
{
    if sections.len() == 0 {
        Seq::empty()
    } else {
        sections_env(sections.drop_last()) + section_entries(sections.last())
    }
}

/// The error of the first target whose source is no stat, if any.
pub open spec fn targets_error(targets: Seq<Target>, env: Seq<(Seq<char>, Ty)>) -> Option<TypeError>
    decreases targets.len(),
{
    if targets.len() == 0 {
        None
    } else {
        match targets_error(targets.drop_last(), env) {
            Some(error) => Some(error),
            None => match env_lookup(env, targets.last().source@) {
                None => Some(TypeError::UndefinedReference(targets.last().source)),
                Some(_) => None,
            },
        }
    }
}

/// `typed` is `target` with the type of the stat it reads.
pub open spec fn target_typed(target: Target, typed: Target, env: Seq<(Seq<char>, Ty)>) -> bool {
    &&& typed.name == target.name
    &&& typed.source == target.source
    &&& env_lookup(env, target.source@) == Some(typed.ty)
}

/// The environment of the metrics.
fn env_of_metrics(metrics: &Vec<Metric>) -> (env: Vec<(String, Ty)>)
    ensures
        env_view(env@) == metrics_env(metrics@),
{
    let mut env: Vec<(String, Ty)> = Vec::new();
    for i in 0..metrics.len()
        invariant
            env_view(env@) == metrics_env(metrics@.take(i as int)),
    {
        let ghost before = env_view(env@);
        env.push((metrics[i].name.clone(), metrics[i].ty.clone()));
        assert(env_view(env@) =~= before.push((metrics@[i as int].name@, metrics@[i as int].ty)));
        assert(metrics@.take(i + 1) =~= metrics@.take(i as int).push(metrics@[i as int]));
        assert(env_view(env@) =~= metrics_env(metrics@.take(i + 1)));
    }
    assert(metrics@.take(metrics.len() as int) =~= metrics@);
    env
}

/// An error of a prefix of the lets is the error of all of them.
proof fn lemma_lets_error_persists(lets: Seq<StatsLet>, env: Seq<(Seq<char>, Ty)>, i: int)
    requires
        0 <= i <= lets.len(),
        lets_env(lets.take(i), env) is Err,
    ensures
        lets_env(lets, env) == lets_env(lets.take(i), env),
    decreases lets.len() - i,
{
    if i < lets.len() {
        assert(lets.take(i + 1).drop_last() =~= lets.take(i));
        lemma_lets_error_persists(lets, env, i + 1);
    } else {
        assert(lets.take(i) =~= lets);
    }
}

/// Extends `env` with the lets, in order.
fn type_lets(lets: &Vec<StatsLet>, env: &mut Vec<(String, Ty)>) -> (res: Result<(), TypeError>)
    ensures
        match lets_env(lets@, env_view(old(env)@)) {
            Ok(after) => res is Ok && env_view(final(env)@) == after,
            Err(error) => res == Err::<(), TypeError>(error),
        },
{
    let ghost start = env_view(env@);
    assert(lets@.take(0) =~= Seq::<StatsLet>::empty());
    for i in 0..lets.len()
        invariant
            start == env_view(old(env)@),
            lets_env(lets@.take(i as int), start) == Ok::<Seq<(Seq<char>, Ty)>, TypeError>(env_view(env@)),
    {
        assert(lets@.take(i + 1).drop_last() =~= lets@.take(i as int));
        let ty = match lets[i].value.ty(env) {
            Ok(ty) => ty,
            Err(error) => {
                proof {
                    lemma_lets_error_persists(lets@, start, i + 1);
                }
                return Err(error);
            },
        };
        let ghost before = env_view(env@);
        env.push((lets[i].name.clone(), ty));
        assert(env_view(env@) =~= before.push((lets@[i as int].name@, ty)));
    }
    assert(lets@.take(lets.len() as int) =~= lets@);
    Ok(())
}

/// The stats of a section, each with the type of its value.
fn type_stats(stats: &Vec<Stat>, env: &Vec<(String, Ty)>) -> (res: Result<Vec<Stat>, TypeError>)
    ensures
        match stats_error(stats@, env_view(env@)) {
            Some(error) => res == Err::<Vec<Stat>, TypeError>(error),
            None => res matches Ok(typed) && typed@.len() == stats@.len()
                && forall|j: int| 0 <= j < stats@.len()
                    ==> #[trigger] stat_typed(stats@[j], typed@[j], env_view(env@)),
        },
{
    let ghost e = env_view(env@);
    let mut typed: Vec<Stat> = Vec::new();
    for i in 0..stats.len()
        invariant
            e == env_view(env@),
            stats_error(stats@.take(i as int), e) is None,
            typed@.len() == i,
            forall|j: int| 0 <= j < i ==> #[trigger] stat_typed(stats@[j], typed@[j], e),
    {
        assert(stats@.take(i + 1).drop_last() =~= stats@.take(i as int));
        let ty = match stats[i].value.ty(env) {
            Ok(ty) => ty,
            Err(error) => {
                proof {
                    lemma_stats_error_persists(stats@, e, i + 1);
                }
                return Err(error);
            },
        };
        typed.push(Stat { name: stats[i].name.clone(), value: stats[i].value.clone(), ty });
    }
    assert(stats@.take(stats.len() as int) =~= stats@);
    Ok(typed)
}

/// An error of a prefix of the stats is the error of all of them.
proof fn lemma_stats_error_persists(stats: Seq<Stat>, env: Seq<(Seq<char>, Ty)>, i: int)
    requires
        0 <= i <= stats.len(),
        stats_error(stats.take(i), env) is Some,
    ensures
        stats_error(stats, env) == stats_error(stats.take(i), env),
    decreases stats.len() - i,
{
    if i < stats.len() {
        assert(stats.take(i + 1).drop_last() =~= stats.take(i));
        lemma_stats_error_persists(stats, env, i + 1);
    } else {
        assert(stats.take(i) =~= stats);
    }
}

/// An error of a prefix of the sections is the error of all of them.
proof fn lemma_sections_error_persists(sections: Seq<StatsSection>, env: Seq<(Seq<char>, Ty)>, i: int)
    requires
        0 <= i <= sections.len(),
        sections_error(sections.take(i), env) is Some,
    ensures
        sections_error(sections, env) == sections_error(sections.take(i), env),
    decreases sections.len() - i,
{
    if i < sections.len() {
        assert(sections.take(i + 1).drop_last() =~= sections.take(i));
        lemma_sections_error_persists(sections, env, i + 1);
    } else {
        assert(sections.take(i) =~= sections);
    }
}

/// The sections, each with its stats typed.
fn type_sections(sections: &Vec<StatsSection>, env: &Vec<(String, Ty)>) -> (res: Result<Vec<StatsSection>, TypeError>)
    ensures
        match sections_error(sections@, env_view(env@)) {
            Some(error) => res == Err::<Vec<StatsSection>, TypeError>(error),
            None => res matches Ok(typed) && typed@.len() == sections@.len()
                && forall|i: int| 0 <= i < sections@.len()
                    ==> #[trigger] section_typed(sections@[i], typed@[i], env_view(env@)),
        },
{
    let ghost e = env_view(env@);
    let mut typed: Vec<StatsSection> = Vec::new();
    for i in 0..sections.len()
        invariant
            e == env_view(env@),
            sections_error(sections@.take(i as int), e) is None,
            typed@.len() == i,
            forall|j: int| 0 <= j < i ==> #[trigger] section_typed(sections@[j], typed@[j], e),
    {
        assert(sections@.take(i + 1).drop_last() =~= sections@.take(i as int));
        let stats = match type_stats(&sections[i].stats, env) {
            Ok(stats) => stats,
            Err(error) => {
                proof {
                    lemma_sections_error_persists(sections@, e, i + 1);
                }
                return Err(error);
            },
        };
        typed.push(StatsSection { name: sections[i].name.clone(), stats });
    }
    assert(sections@.take(sections.len() as int) =~= sections@);
    Ok(typed)
}

/// The environment of the targets: every stat under its key `section.stat`.
fn env_of_sections(sections: &Vec<StatsSection>) -> (env: Vec<(String, Ty)>)
    ensures
        env_view(env@) == sections_env(sections@),
{
    let mut env: Vec<(String, Ty)> = Vec::new();
    for i in 0..sections.len()
        invariant
            env_view(env@) == sections_env(sections@.take(i as int)),
    {
        assert(sections@.take(i + 1).drop_last() =~= sections@.take(i as int));
        let section = &sections[i];
        let ghost start = env_view(env@);
        let count = section.stats.len();
        for j in 0..count
            invariant
                section == sections@[i as int],
                count == section.stats@.len(),
                env_view(env@) == start + section_entries(*section).take(j as int),
        {
            let stat = &section.stats[j];
            let mut key = section.name.clone();
            key.append(".");
            key.append(stat.name.as_str());
            proof {
                reveal_strlit(".");
                assert("."@ =~= seq!['.']);
                assert(key@ =~= stat_key(section.name@, stat.name@));
            }
            let ghost before = env_view(env@);
            env.push((key, stat.ty.clone()));
            assert(env_view(env@) =~= before.push((stat_key(section.name@, stat.name@), stat.ty)));
            assert(env_view(env@) =~= start + section_entries(*section).take(j + 1));
        }
        assert(section_entries(*section).take(count as int) =~= section_entries(*section));
    }
    assert(sections@.take(sections.len() as int) =~= sections@);
    env
}

/// An error of a prefix of the targets is the error of all of them.
proof fn lemma_targets_error_persists(targets: Seq<Target>, env: Seq<(Seq<char>, Ty)>, i: int)
    requires
        0 <= i <= targets.len(),
        targets_error(targets.take(i), env) is Some,
    ensures
        targets_error(targets, env) == targets_error(targets.take(i), env),
    decreases targets.len() - i,
{
    if i < targets.len() {
        assert(targets.take(i + 1).drop_last() =~= targets.take(i));
        lemma_targets_error_persists(targets, env, i + 1);
    } else {
        assert(targets.take(i) =~= targets);
    }
}

/// The targets, each with the type of the stat it reads.
fn type_targets(targets: &Vec<Target>, env: &Vec<(String, Ty)>) -> (res: Result<Vec<Target>, TypeError>)
    ensures
        match targets_error(targets@, env_view(env@)) {
            Some(error) => res == Err::<Vec<Target>, TypeError>(error),
            None => res matches Ok(typed) && typed@.len() == targets@.len()
                && forall|j: int| 0 <= j < targets@.len()
                    ==> #[trigger] target_typed(targets@[j], typed@[j], env_view(env@)),
        },
{
    let ghost e = env_view(env@);
    let mut typed: Vec<Target> = Vec::new();
    for i in 0..targets.len()
        invariant
            e == env_view(env@),
            targets_error(targets@.take(i as int), e) is None,
            typed@.len() == i,
            forall|j: int| 0 <= j < i ==> #[trigger] target_typed(targets@[j], typed@[j], e),
    {
        assert(targets@.take(i + 1).drop_last() =~= targets@.take(i as int));
        let target = &targets[i];
        let ty = match lookup(env, &target.source) {
            Some(ty) => ty,
            None => {
                proof {
                    lemma_targets_error_persists(targets@, e, i + 1);
                }
                return Err(TypeError::UndefinedReference(target.source.clone()));
            },
        };
        typed.push(Target { name: target.name.clone(), source: target.source.clone(), ty });
    }
    assert(targets@.take(targets.len() as int) =~= targets@);
    Ok(typed)
}

/// The type that a stat has once checked: that of its value.
pub open spec fn checked_ty(stat: Stat, env: Seq<(Seq<char>, Ty)>) -> Ty {
    match stat_value_ty(stat.value, env) {
        Ok(ty) => ty,
        Err(_) => stat.ty,
    }
}

/// The environment of the targets once the stats of `sections` are typed.
pub open spec fn checked_sections_env(sections: Seq<StatsSection>, env: Seq<(Seq<char>, Ty)>) -> Seq<(Seq<char>, Ty)>
    decreases sections.len(),
{
    if sections.len() == 0 {
        Seq::empty()
    } else {
        checked_sections_env(sections.drop_last(), env) + checked_section_entries(sections.last(), env)
    }
}

/// The entries of a section once its stats are typed.
pub open spec fn checked_section_entries(section: StatsSection, env: Seq<(Seq<char>, Ty)>) -> Seq<(Seq<char>, Ty)> {
    let stats = section.stats@;
    Seq::new(
        stats.len(),
        |j: int| (stat_key(section.name@, stats[j].name@), checked_ty(stats[j], env)),
    )
}

/// Typing the sections gives them the environment that `checked_sections_env`
/// describes.
proof fn lemma_typed_sections_env(sections: Seq<StatsSection>, typed: Seq<StatsSection>, env: Seq<(Seq<char>, Ty)>)
    requires
        typed.len() == sections.len(),
        forall|i: int| 0 <= i < sections.len() ==> #[trigger] section_typed(sections[i], typed[i], env),
    ensures
        sections_env(typed) == checked_sections_env(sections, env),
    decreases sections.len(),
{
    if sections.len() > 0 {
        let n = sections.len() - 1;
        assert forall|i: int| 0 <= i < n implies #[trigger] section_typed(sections.drop_last()[i], typed.drop_last()[i], env) by {
            assert(section_typed(sections[i], typed[i], env));
        }
        lemma_typed_sections_env(sections.drop_last(), typed.drop_last(), env);
        let old_section = sections.last();
        let new_section = typed.last();
        assert(section_typed(sections[n], typed[n], env));
        let new_entries = section_entries(new_section);
        let old_entries = checked_section_entries(old_section, env);
        let m = old_section.stats@.len();
        assert forall|j: int| 0 <= j < m implies #[trigger] new_entries[j] == old_entries[j] by {
            assert(stat_typed(old_section.stats@[j], new_section.stats@[j], env));
        }
        assert(new_entries =~= old_entries);
    }
}

/// Checks the types of parsed rules and records them: each let and stat
/// is typed in the environment of the metrics and the lets before it, and
/// each target takes the type of the stat `section.stat` it names. The
/// first error, in that order, is returned.
pub fn check_types(metrics: Vec<Metric>, stats: Stats, targets: Vec<Target>) -> (res: Result<Rules, TypeError>)
    ensures
        match lets_env(stats.lets@, metrics_env(metrics@)) {
            Err(error) => res == Err::<Rules, TypeError>(error),
            Ok(env) => match sections_error(stats.sections@, env) {
                Some(error) => res == Err::<Rules, TypeError>(error),
                None => match targets_error(targets@, checked_sections_env(stats.sections@, env)) {
                    Some(error) => res == Err::<Rules, TypeError>(error),
                    None => res matches Ok(rules)
                        && rules.metrics == metrics
                        && rules.stats.lets == stats.lets
                        && rules.stats.sections@.len() == stats.sections@.len()
                        && (forall|i: int| 0 <= i < stats.sections@.len()
                            ==> #[trigger] section_typed(stats.sections@[i], rules.stats.sections@[i], env))
                        && rules.targets@.len() == targets@.len()
                        && (forall|i: int| 0 <= i < targets@.len()
                            ==> #[trigger] target_typed(targets@[i], rules.targets@[i],
                                checked_sections_env(stats.sections@, env))),
                },
            },
        },
{
    let mut env = env_of_metrics(&metrics);
    type_lets(&stats.lets, &mut env)?;
    let sections = type_sections(&stats.sections, &env)?;
    let targets_env = env_of_sections(&sections);
    proof {
        lemma_typed_sections_env(stats.sections@, sections@, env_view(env@));
    }
    let targets = type_targets(&targets, &targets_env)?;
    Ok(Rules { metrics, stats: Stats { lets: stats.lets, sections }, targets })
}

} // verus!
