//! The color role table: which colors of a definition matter, and as what.

use crate::picture::Color;
use vstd::prelude::*;

verus! {

/// The role that a registered color plays in a definition.
#[derive(Debug, Clone, Copy, PartialEq, Eq, Structural)]
pub enum ColorType {
    Input,
    Output,
    Function,
}

/// One registration: a color and its role.
#[derive(Debug, Clone, Copy, PartialEq, Eq, Structural)]
pub struct Registration {
    pub color: Color,
    pub role: ColorType,
}

/// The roles that a list of registrations assigns: a later registration of a
/// color replaces an earlier one.
pub open spec fn roles_of(entries: Seq<Registration>) -> Map<Color, ColorType>
    decreases entries.len(),
{
    if entries.len() == 0 {
        Map::empty()
    } else {
        roles_of(entries.drop_last()).insert(entries.last().color, entries.last().role)
    }
}

/// Every color with a role is the color of some registration.
pub proof fn lemma_roles_come_from_entries(entries: Seq<Registration>, c: Color)
    requires
        roles_of(entries).contains_key(c),
    ensures
        exists|i: int| 0 <= i < entries.len() && (#[trigger] entries[i]).color == c,
    decreases entries.len(),
{
    if entries.len() > 0 {
        if entries.last().color == c {
            assert(entries[entries.len() - 1].color == c);
        } else {
            lemma_roles_come_from_entries(entries.drop_last(), c);
            let i = choose|i: int|
                0 <= i < entries.drop_last().len() && (#[trigger] entries.drop_last()[i]).color
                    == c;
            assert(entries[i].color == c);
        }
    }
}

/// Every registered color has a role.
pub proof fn lemma_entries_have_roles(entries: Seq<Registration>, i: int)
    requires
        0 <= i < entries.len(),
    ensures
        roles_of(entries).contains_key(entries[i].color),
    decreases entries.len(),
{
    if i < entries.len() - 1 {
        lemma_entries_have_roles(entries.drop_last(), i);
    }
}

/// Whether `f` is the one color with the role `Function`.
pub open spec fn is_function_color(roles: Map<Color, ColorType>, f: Color) -> bool {
    &&& roles.contains_key(f)
    &&& roles[f] == ColorType::Function
    &&& forall|c: Color| #[trigger]
        roles.contains_key(c) && roles[c] == ColorType::Function ==> c == f
}

/// Whether exactly one color has the role `Function`.
pub open spec fn has_function_color(roles: Map<Color, ColorType>) -> bool {
    exists|f: Color| is_function_color(roles, f)
}

/// The color with the role `Function`.
pub open spec fn function_color_of(roles: Map<Color, ColorType>) -> Color
    recommends
        has_function_color(roles),
{
    choose|f: Color| is_function_color(roles, f)
}

/// The function color is the only color that `is_function_color` accepts.
pub proof fn lemma_function_color_unique(roles: Map<Color, ColorType>, f: Color)
    requires
        is_function_color(roles, f),
    ensures
        has_function_color(roles),
        function_color_of(roles) == f,
{
}

/// Replacing the role in the last registration of a color gives the color
/// that role, and leaves the other colors as they are.
pub proof fn lemma_replace_last(entries: Seq<Registration>, k: int, role: ColorType)
    requires
        0 <= k < entries.len(),
        forall|i: int| k < i < entries.len() ==> (#[trigger] entries[i]).color != entries[k].color,
    ensures
        roles_of(entries.update(k, Registration { color: entries[k].color, role })) == roles_of(
            entries,
        ).insert(entries[k].color, role),
    decreases entries.len(),
{
    let c = entries[k].color;
    let replaced = entries.update(k, Registration { color: c, role });
    if k == entries.len() - 1 {
        assert(replaced.drop_last() == entries.drop_last());
        assert(roles_of(replaced) =~= roles_of(entries).insert(c, role));
    } else {
        assert(replaced.drop_last() == entries.drop_last().update(
            k,
            Registration { color: c, role },
        ));
        assert(entries.drop_last()[k] == entries[k]);
        assert forall|i: int| k < i < entries.drop_last().len() implies (
        #[trigger] entries.drop_last()[i]).color != entries.drop_last()[k].color by {
            assert(entries.drop_last()[i] == entries[i]);
        }
        lemma_replace_last(entries.drop_last(), k, role);
        assert(entries[entries.len() - 1].color != c);
        assert(roles_of(replaced) =~= roles_of(entries).insert(c, role));
    }
}

/// A mapping from exact colors to roles, kept as the list of registrations.
#[derive(Debug, Clone)]
pub struct ColorTable {
    pub entries: Vec<Registration>,
}

impl View for ColorTable {
    type V = Map<Color, ColorType>;

    open spec fn view(&self) -> Map<Color, ColorType> {
        roles_of(self.entries@)
    }
}

/// Whether no color is registered twice.
pub open spec fn no_repeats(entries: Seq<Registration>) -> bool {
    forall|i: int, j: int|
        0 <= i < j < entries.len() ==> (#[trigger] entries[i]).color != (#[trigger] entries[j]).color
}

impl ColorTable {
    /// Whether each color has one registration, as in every table made by
    /// `new` and `insert`.
    pub open spec fn distinct(&self) -> bool {
        no_repeats(self.entries@)
    }

    /// The table without any color.
    pub fn new() -> (table: ColorTable)
        ensures
            table@ == Map::<Color, ColorType>::empty(),
            table.distinct(),
    {
        ColorTable { entries: Vec::new() }
    }

    /// Gives `c` the role `role`, whatever role it had. A color that is
    /// registered keeps its place in the list.
    pub fn insert(&mut self, c: Color, role: ColorType)
        ensures
            final(self)@ == old(self)@.insert(c, role),
            old(self).distinct() ==> final(self).distinct(),
    {
        let mut k: usize = self.entries.len();
        while k > 0
            invariant
                k <= self.entries@.len(),
                self.entries@ == old(self).entries@,
                forall|i: int| k <= i < self.entries@.len() ==> (#[trigger] self.entries@[i]).color != c,
            decreases k,
        {
            k = k - 1;
            if self.entries[k].color == c {
                proof {
                    lemma_replace_last(self.entries@, k as int, role);
                }
                self.entries.set(k, Registration { color: c, role });
                return;
            }
        }
        self.entries.push(Registration { color: c, role });
        assert(self.entries@.drop_last() == old(self).entries@);
    }

    /// The role of `c`, if it has one.
    pub fn get(&self, c: Color) -> (role: Option<ColorType>)
        ensures
            role == (if self@.contains_key(c) {
                Some(self@[c])
            } else {
                None
            }),
    {
        let mut k: usize = self.entries.len();
        assert(self.entries@.take(k as int) == self.entries@);
        while k > 0
            invariant
                k <= self.entries@.len(),
                self@.contains_key(c) == roles_of(self.entries@.take(k as int)).contains_key(c),
                self@.contains_key(c) ==> self@[c] == roles_of(self.entries@.take(k as int))[c],
            decreases k,
        {
            proof {
                assert(self.entries@.take(k as int).drop_last() == self.entries@.take(k - 1));
            }
            k = k - 1;
            if self.entries[k].color == c {
                return Some(self.entries[k].role);
            }
        }
        None
    }

    /// Tells whether exactly one color has the role `Function`.
    pub fn one_function_color(&self) -> (ok: bool)
        ensures
            ok == has_function_color(self@),
    {
        let f = match self.function_color() {
            Some(f) => f,
            None => {
                return false;
            },
        };
        let mut k: usize = 0;
        while k < self.entries.len()
            invariant
                k <= self.entries@.len(),
                self@.contains_key(f),
                self@[f] == ColorType::Function,
                forall|i: int|
                    0 <= i < k && (#[trigger] self.entries@[i]).color != f
                        ==> self@[self.entries@[i].color] != ColorType::Function,
            decreases self.entries@.len() - k,
        {
            let c = self.entries[k].color;
            proof {
                lemma_entries_have_roles(self.entries@, k as int);
            }
            if c != f {
                match self.get(c) {
                    Some(ColorType::Function) => {
                        return false;
                    },
                    _ => {},
                }
            }
            k = k + 1;
        }
        proof {
            assert forall|c: Color| #[trigger]
                self@.contains_key(c) && self@[c] == ColorType::Function implies c == f by {
                lemma_roles_come_from_entries(self.entries@, c);
            }
            assert(is_function_color(self@, f));
        }
        true
    }

    /// Whether `c` has a role.
    pub fn contains(&self, c: Color) -> (registered: bool)
        ensures
            registered == self@.contains_key(c),
    {
        self.get(c).is_some()
    }

    /// A color with the role `Function`, if there is one.
    pub fn function_color(&self) -> (found: Option<Color>)
        ensures
            found matches Some(f) ==> self@.contains_key(f) && self@[f] == ColorType::Function,
            found is None ==> forall|c: Color| #[trigger]
                self@.contains_key(c) ==> self@[c] != ColorType::Function,
            has_function_color(self@) ==> found == Some(function_color_of(self@)),
    {
        let mut k: usize = 0;
        while k < self.entries.len()
            invariant
                k <= self.entries@.len(),
                forall|i: int|
                    0 <= i < k ==> self@[(#[trigger] self.entries@[i]).color]
                        != ColorType::Function,
            decreases self.entries@.len() - k,
        {
            let c = self.entries[k].color;
            proof {
                lemma_entries_have_roles(self.entries@, k as int);
            }
            match self.get(c) {
                Some(ColorType::Function) => {
                    return Some(c);
                },
                _ => {},
            }
            k = k + 1;
        }
        proof {
            assert forall|c: Color| #[trigger] self@.contains_key(c) implies self@[c]
                != ColorType::Function by {
                lemma_roles_come_from_entries(self.entries@, c);
            }
        }
        None
    }
}

} // verus!
