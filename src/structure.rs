use vstd::prelude::*;
use crate::number::Decimal;
use crate::record::SequencePosition;

verus! {

/// A character that may stand in a name: printable ASCII.
pub open spec fn printable(c: char) -> bool {
    ' ' <= c <= '~'
}

pub open spec fn all_printable(s: Seq<char>) -> bool {
    forall|i: int| 0 <= i < s.len() ==> printable(#[trigger] s[i])
}

/// Whether every character of `s` is printable ASCII.
pub fn is_printable(s: &[char]) -> (r: bool)
    ensures
        r == all_printable(s@),
{
    let mut i: usize = 0;
    while i < s.len()
        invariant
            i <= s@.len(),
            forall|k: int| 0 <= k < i ==> printable(#[trigger] s@[k]),
        decreases s@.len() - i,
    {
        if !(' ' <= s[i] && s[i] <= '~') {
            return false;
        }
        i += 1;
    }
    true
}

/// One atom.
#[derive(Clone, Copy, Debug)]
pub struct Atom {
    pub serial: usize,
    pub name: [char; 4],
    pub hetero: bool,
    pub x: Decimal,
    pub y: Decimal,
    pub z: Decimal,
    pub occupancy: Decimal,
    pub b_factor: Decimal,
    pub element: [char; 2],
    pub charge: i64,
    pub anisotropic: Option<[Decimal; 6]>,
    /// The atom's place in the order its model received atoms, from 0.
    pub order: usize,
}

/// A residue: a monomer with its serial number, its three-letter name and its atoms.
#[derive(Debug)]
pub struct Residue {
    pub serial: usize,
    pub name: [char; 3],
    pub atoms: Vec<Atom>,
    /// The standard residue this one modifies, with a comment.
    pub modification: Option<([char; 3], String)>,
}

/// A residue where the structure's sequence differs from the referenced database.
#[derive(Debug)]
pub struct SequenceDifference {
    pub residue: ([char; 3], usize),
    pub database_residue: Option<([char; 3], usize)>,
    pub comment: String,
}

/// A mapping of a chain's numbering onto an external sequence database.
#[derive(Debug)]
pub struct DatabaseReference {
    pub database: String,
    pub accession: String,
    pub database_id: String,
    pub pdb_position: SequencePosition,
    pub database_position: SequencePosition,
    pub differences: Vec<SequenceDifference>,
}

/// A chain: its residues in ascending order of serial number.
#[derive(Debug)]
pub struct Chain {
    pub id: char,
    pub residues: Vec<Residue>,
    pub database_reference: Option<DatabaseReference>,
}

/// One structural model: a coordinate set of chains.
#[derive(Debug)]
pub struct Model {
    pub serial: usize,
    pub chains: Vec<Chain>,
    /// How many atoms the model has received (saturating).
    pub inserted: usize,
}

/// A 3x4 transform whose rows are set one at a time.
#[derive(Clone, Copy, Debug)]
pub struct Transform {
    pub rows: [[Decimal; 4]; 3],
    pub set: [bool; 3],
}

/// A symmetry operator: a transform with its serial number.
#[derive(Clone, Copy, Debug)]
pub struct MtriX {
    pub serial: usize,
    pub transform: Transform,
    /// Whether the copy this operator describes is given in the coordinates.
    pub given: bool,
}

/// The unit cell: three lengths and three angles.
#[derive(Clone, Copy, Debug)]
pub struct UnitCell {
    pub a: Decimal,
    pub b: Decimal,
    pub c: Decimal,
    pub alpha: Decimal,
    pub beta: Decimal,
    pub gamma: Decimal,
}

/// The space group, by its Hermann-Mauguin symbol.
#[derive(Debug)]
pub struct Symmetry {
    pub symbol: String,
}

/// A whole structure.
#[derive(Debug)]
pub struct Pdb {
    /// The comments, each with its type number.
    pub remarks: Vec<(usize, String)>,
    pub models: Vec<Model>,
    pub unit_cell: Option<UnitCell>,
    pub symmetry: Option<Symmetry>,
    /// The identity transform.
    pub origx: Option<Transform>,
    pub scale: Option<Transform>,
    pub mtrix: Vec<MtriX>,
}

/// A count as a `usize`, saturated at `usize::MAX`.
pub open spec fn saturated(x: int) -> usize {
    if x > usize::MAX {
        usize::MAX
    } else if x < 0 {
        0
    } else {
        x as usize
    }
}

/// The number of atoms in a list of residues.
pub open spec fn residues_atoms(rs: Seq<Residue>) -> nat
    decreases rs.len(),
{
    if rs.len() == 0 {
        0
    } else {
        residues_atoms(rs.drop_last()) + rs.last().atoms@.len()
    }
}

/// The number of atoms in a list of chains.
pub open spec fn chains_atoms(cs: Seq<Chain>) -> nat
    decreases cs.len(),
{
    if cs.len() == 0 {
        0
    } else {
        chains_atoms(cs.drop_last()) + residues_atoms(cs.last().residues@)
    }
}

/// The number of atoms in a list of models.
pub open spec fn models_atoms(ms: Seq<Model>) -> nat
    decreases ms.len(),
{
    if ms.len() == 0 {
        0
    } else {
        models_atoms(ms.drop_last()) + chains_atoms(ms.last().chains@)
    }
}

/// Whether some residue of the list has this serial number.
pub open spec fn holds_serial(rs: Seq<Residue>, serial: usize) -> bool {
    exists|k: int| 0 <= k < rs.len() && (#[trigger] rs[k]).serial == serial
}

/// Whether some chain of the list has this id.
pub open spec fn holds_chain(cs: Seq<Chain>, id: char) -> bool {
    exists|i: int| 0 <= i < cs.len() && (#[trigger] cs[i]).id == id
}

/// Residue serial numbers strictly ascend.
pub open spec fn ascending(rs: Seq<Residue>) -> bool {
    forall|i: int, j: int| 0 <= i < j < rs.len() ==> #[trigger] rs[i].serial < #[trigger] rs[j].serial
}

/// Every chain of the model keeps its residues in ascending order.
pub open spec fn model_wf(m: Model) -> bool {
    forall|i: int| 0 <= i < m.chains@.len() ==> ascending(#[trigger] m.chains@[i].residues@)
}

pub open spec fn pdb_wf(p: Pdb) -> bool {
    forall|i: int| 0 <= i < p.models@.len() ==> model_wf(#[trigger] p.models@[i])
}

pub proof fn lemma_residues_update(rs: Seq<Residue>, i: int, r: Residue)
    requires
        0 <= i < rs.len(),
    ensures
        residues_atoms(rs.update(i, r)) + rs[i].atoms@.len() == residues_atoms(rs) + r.atoms@.len(),
    decreases rs.len(),
{
    let u = rs.update(i, r);
    if i == rs.len() - 1 {
        assert(u.drop_last() =~= rs.drop_last());
    } else {
        assert(u.drop_last() =~= rs.drop_last().update(i, r));
        lemma_residues_update(rs.drop_last(), i, r);
    }
}

pub proof fn lemma_residues_insert(rs: Seq<Residue>, i: int, r: Residue)
    requires
        0 <= i <= rs.len(),
    ensures
        residues_atoms(rs.insert(i, r)) == residues_atoms(rs) + r.atoms@.len(),
    decreases rs.len(),
{
    let u = rs.insert(i, r);
    if i == rs.len() {
        assert(u.drop_last() =~= rs);
    } else {
        assert(u.drop_last() =~= rs.drop_last().insert(i, r));
        lemma_residues_insert(rs.drop_last(), i, r);
    }
}

pub proof fn lemma_chains_update(cs: Seq<Chain>, i: int, c: Chain)
    requires
        0 <= i < cs.len(),
    ensures
        chains_atoms(cs.update(i, c)) + residues_atoms(cs[i].residues@) == chains_atoms(cs)
            + residues_atoms(c.residues@),
    decreases cs.len(),
{
    let u = cs.update(i, c);
    if i == cs.len() - 1 {
        assert(u.drop_last() =~= cs.drop_last());
    } else {
        assert(u.drop_last() =~= cs.drop_last().update(i, c));
        lemma_chains_update(cs.drop_last(), i, c);
    }
}

pub proof fn lemma_models_update(ms: Seq<Model>, i: int, m: Model)
    requires
        0 <= i < ms.len(),
    ensures
        models_atoms(ms.update(i, m)) + chains_atoms(ms[i].chains@) == models_atoms(ms)
            + chains_atoms(m.chains@),
    decreases ms.len(),
{
    let u = ms.update(i, m);
    if i == ms.len() - 1 {
        assert(u.drop_last() =~= ms.drop_last());
    } else {
        assert(u.drop_last() =~= ms.drop_last().update(i, m));
        lemma_models_update(ms.drop_last(), i, m);
    }
}

impl Residue {
    /// A residue without atoms; `None` when its name holds a character
    /// outside printable ASCII.
    pub fn new(serial: usize, name: [char; 3]) -> (r: Option<Residue>)
        ensures
            r is Some <==> all_printable(name@),
            r matches Some(res) ==> res.serial == serial && res.name == name && res.atoms@.len()
                == 0 && res.modification is None,
    {
        if !is_printable(&name) {
            return None;
        }
        Some(Residue { serial, name, atoms: Vec::new(), modification: None })
    }
}

impl Chain {
    pub fn new(id: char) -> (r: Chain)
        ensures
            r.id == id,
            r.residues@.len() == 0,
            r.database_reference is None,
    {
        Chain { id, residues: Vec::new(), database_reference: None }
    }

    /// The index where a residue with serial `serial` stands, or where it
    /// would be inserted to keep the order.
    pub fn position_of(&self, serial: usize) -> (r: (usize, bool))
        requires
            ascending(self.residues@),
        ensures
            r.0 <= self.residues@.len(),
            forall|k: int| 0 <= k < r.0 ==> (#[trigger] self.residues@[k]).serial < serial,
            r.1 <==> (r.0 < self.residues@.len() && self.residues@[r.0 as int].serial == serial),
            !r.1 ==> forall|k: int|
                r.0 <= k < self.residues@.len() ==> (#[trigger] self.residues@[k]).serial > serial,
    {
        let mut i: usize = 0;
        while i < self.residues.len()
            invariant
                i <= self.residues@.len(),
                ascending(self.residues@),
                forall|k: int| 0 <= k < i ==> (#[trigger] self.residues@[k]).serial < serial,
            decreases self.residues@.len() - i,
        {
            let s = self.residues[i].serial;
            if s == serial {
                return (i, true);
            }
            if s > serial {
                return (i, false);
            }
            i += 1;
        }
        (i, false)
    }

    /// Adds an atom to the residue with serial `serial`, made with `name` when
    /// the chain has no such residue yet.
    pub fn add_atom(&mut self, atom: Atom, serial: usize, name: [char; 3])
        requires
            ascending(old(self).residues@),
        ensures
            ascending(final(self).residues@),
            final(self).id == old(self).id,
            final(self).database_reference == old(self).database_reference,
            residues_atoms(final(self).residues@) == residues_atoms(old(self).residues@) + 1,
            exists|k: int| 0 <= k < final(self).residues@.len() && (#[trigger] final(self).residues@[k]).serial == serial
                && final(self).residues@[k].atoms@.len() > 0 && final(self).residues@[k].atoms@.last() == atom,
            final(self).residues@.len() == old(self).residues@.len() + if holds_serial(old(self).residues@, serial) { 0int } else { 1int },
    {
        let (i, found) = self.position_of(serial);
        let ghost before = self.residues@;
        if found {
            let mut res = self.residues.remove(i);
            let ghost old_res = res;
            res.atoms.push(atom);
            self.residues.insert(i, res);
            assert(self.residues@ =~= before.update(i as int, res));
            proof {
                lemma_residues_update(before, i as int, res);
                assert(self.residues@[i as int].atoms@.last() == atom);
                assert(holds_serial(before, serial));
            }
        } else {
            let mut atoms: Vec<Atom> = Vec::new();
            atoms.push(atom);
            let res = Residue { serial, name, atoms, modification: None };
            self.residues.insert(i, res);
            proof {
                lemma_residues_insert(before, i as int, res);
                assert(self.residues@[i as int] == res);
                assert(res.atoms@.last() == atom);
                assert(!holds_serial(before, serial)) by {
                    if holds_serial(before, serial) {
                        let k = choose|k: int| 0 <= k < before.len() && (#[trigger] before[k]).serial == serial;
                        if k < i {} else {}
                    }
                }
            }
        }
    }
}

impl Model {
    pub fn new(serial: usize) -> (r: Model)
        ensures
            r.serial == serial,
            r.chains@.len() == 0,
            r.inserted == 0,
    {
        Model { serial, chains: Vec::new(), inserted: 0 }
    }

    /// The number of atoms in the model, saturated at `usize::MAX`.
    pub fn atom_count(&self) -> (r: usize)
        ensures
            r == saturated(chains_atoms(self.chains@) as int),
    {
        let mut total: usize = 0;
        let mut i: usize = 0;
        while i < self.chains.len()
            invariant
                i <= self.chains@.len(),
                total == saturated(chains_atoms(self.chains@.subrange(0, i as int)) as int),
            decreases self.chains@.len() - i,
        {
            assert(self.chains@.subrange(0, i as int + 1).drop_last() =~= self.chains@.subrange(0, i as int));
            let residues = &self.chains[i].residues;
            let mut j: usize = 0;
            let mut sub: usize = 0;
            while j < residues.len()
                invariant
                    j <= residues@.len(),
                    sub == saturated(residues_atoms(residues@.subrange(0, j as int)) as int),
                decreases residues@.len() - j,
            {
                assert(residues@.subrange(0, j as int + 1).drop_last() =~= residues@.subrange(0, j as int));
                sub = sub.saturating_add(residues[j].atoms.len());
                j += 1;
            }
            assert(residues@.subrange(0, j as int) =~= residues@);
            total = total.saturating_add(sub);
            i += 1;
        }
        assert(self.chains@.subrange(0, i as int) =~= self.chains@);
        total
    }

    /// The index of the first chain with the given id.
    pub fn chain_index(&self, id: char) -> (r: Option<usize>)
        ensures
            match r {
                Some(i) => i < self.chains@.len() && self.chains@[i as int].id == id && forall|k: int|
                    0 <= k < i ==> (#[trigger] self.chains@[k]).id != id,
                None => forall|k: int| 0 <= k < self.chains@.len() ==> (#[trigger] self.chains@[k]).id != id,
            },
    {
        let mut i: usize = 0;
        while i < self.chains.len()
            invariant
                i <= self.chains@.len(),
                forall|k: int| 0 <= k < i ==> (#[trigger] self.chains@[k]).id != id,
            decreases self.chains@.len() - i,
        {
            if self.chains[i].id == id {
                return Some(i);
            }
            i += 1;
        }
        None
    }

    /// Adds an atom to the residue `residue_serial` of the chain `chain_id`,
    /// making the chain (at the end) and the residue (in order) when absent.
    pub fn add_atom(&mut self, atom: Atom, chain_id: char, residue_serial: usize, residue_name: [char; 3])
        requires
            model_wf(*old(self)),
        ensures
            model_wf(*final(self)),
            final(self).serial == old(self).serial,
            final(self).inserted == old(self).inserted,
            chains_atoms(final(self).chains@) == chains_atoms(old(self).chains@) + 1,
            exists|i: int| 0 <= i < final(self).chains@.len() && (#[trigger] final(self).chains@[i]).id == chain_id,
            exists|i: int, k: int| 0 <= i < final(self).chains@.len() && (#[trigger] final(self).chains@[i]).id == chain_id
                && 0 <= k < final(self).chains@[i].residues@.len() && (#[trigger] final(self).chains@[i].residues@[k]).serial == residue_serial
                && final(self).chains@[i].residues@[k].atoms@.len() > 0 && final(self).chains@[i].residues@[k].atoms@.last() == atom,
            final(self).chains@.len() == old(self).chains@.len() + if holds_chain(old(self).chains@, chain_id) { 0int } else { 1int },
    {
        let ghost start = self.chains@;
        let i = match self.chain_index(chain_id) {
            Some(i) => i,
            None => {
                let ghost before = self.chains@;
                self.chains.push(Chain::new(chain_id));
                assert(self.chains@.drop_last() =~= before);
                assert(!holds_chain(start, chain_id));
                self.chains.len() - 1
            },
        };
        assert(self.chains@.len() == start.len() + if holds_chain(start, chain_id) { 0int } else { 1int });
        let ghost before = self.chains@;
        let mut chain = self.chains.remove(i);
        assert(ascending(before[i as int].residues@));
        chain.add_atom(atom, residue_serial, residue_name);
        self.chains.insert(i, chain);
        assert(self.chains@ =~= before.update(i as int, chain));
        proof {
            lemma_chains_update(before, i as int, chain);
            assert(self.chains@[i as int].id == chain_id);
            let k = choose|k: int| 0 <= k < chain.residues@.len() && (#[trigger] chain.residues@[k]).serial == residue_serial
                && chain.residues@[k].atoms@.len() > 0 && chain.residues@[k].atoms@.last() == atom;
            assert(self.chains@[i as int].residues@[k].serial == residue_serial);
        }
    }
}

impl Model {
    /// Whether the model holds at least one atom.
    pub fn has_atoms(&self) -> (r: bool)
        ensures
            r == (chains_atoms(self.chains@) > 0),
    {
        let mut i: usize = 0;
        while i < self.chains.len()
            invariant
                i <= self.chains@.len(),
                chains_atoms(self.chains@.subrange(0, i as int)) == 0,
            decreases self.chains@.len() - i,
        {
            assert(self.chains@.subrange(0, i as int + 1).drop_last() =~= self.chains@.subrange(0, i as int));
            let residues = &self.chains[i].residues;
            let mut j: usize = 0;
            while j < residues.len()
                invariant
                    j <= residues@.len(),
                    i < self.chains@.len(),
                    residues@ == self.chains@[i as int].residues@,
                    residues_atoms(residues@.subrange(0, j as int)) == 0,
                decreases residues@.len() - j,
            {
                assert(residues@.subrange(0, j as int + 1).drop_last() =~= residues@.subrange(0, j as int));
                if residues[j].atoms.len() > 0 {
                    proof {
                        lemma_residues_prefix(residues@, j as int + 1);
                        lemma_chains_prefix(self.chains@, i as int + 1);
                        assert(self.chains@[i as int] == self.chains@[(i as int + 1) - 1]);
                    }
                    return true;
                }
                j += 1;
            }
            assert(residues@.subrange(0, j as int) =~= residues@);
            i += 1;
        }
        assert(self.chains@.subrange(0, i as int) =~= self.chains@);
        false
    }

    /// The atom of serial `serial` that the model received last: its chain,
    /// residue and atom index; `None` when no atom has that serial.
    pub fn latest_atom(&self, serial: usize) -> (r: Option<(usize, usize, usize)>)
        ensures
            r is None <==> !has_serial(*self, serial),
            r matches Some((c, s, k)) ==> is_latest(*self, serial, c as int, s as int, k as int),
    {
        let mut best: Option<(usize, usize, usize)> = None;
        let mut c: usize = 0;
        while c < self.chains.len()
            invariant
                c <= self.chains@.len(),
                best_so_far(*self, serial, best, c as int, 0, 0),
            decreases self.chains@.len() - c,
        {
            let mut s: usize = 0;
            while s < self.chains[c].residues.len()
                invariant
                    c < self.chains@.len(),
                    s <= self.chains@[c as int].residues@.len(),
                    best_so_far(*self, serial, best, c as int, s as int, 0),
                decreases self.chains@[c as int].residues@.len() - s,
            {
                let mut k: usize = 0;
                while k < self.chains[c].residues[s].atoms.len()
                    invariant
                        c < self.chains@.len(),
                        s < self.chains@[c as int].residues@.len(),
                        k <= self.chains@[c as int].residues@[s as int].atoms@.len(),
                        best_so_far(*self, serial, best, c as int, s as int, k as int),
                    decreases self.chains@[c as int].residues@[s as int].atoms@.len() - k,
                {
                    let atom = &self.chains[c].residues[s].atoms[k];
                    if atom.serial == serial {
                        let better = match best {
                            None => true,
                            Some((bc, bs, bk)) => self.chains[bc].residues[bs].atoms[bk].order <= atom.order,
                        };
                        if better {
                            best = Some((c, s, k));
                        }
                    }
                    k += 1;
                }
                s += 1;
            }
            c += 1;
        }
        proof {
            if !has_serial(*self, serial) {
            } else {
                let (c2, s2, k2) = choose|c2: int, s2: int, k2: int| atom_at(*self, c2, s2, k2) && (#[trigger] self.chains@[c2].residues@[s2].atoms@[k2]).serial == serial;
                assert(visited(c2, s2, k2, c as int, 0, 0));
            }
        }
        best
    }

    /// Gives anisotropic factors to the atom of serial `serial` that the model
    /// received last. Returns whether there is such an atom; every other
    /// atom is left as it was.
    pub fn set_anisotropic(&mut self, serial: usize, factors: [Decimal; 6]) -> (r: bool)
        requires
            model_wf(*old(self)),
        ensures
            model_wf(*final(self)),
            final(self).serial == old(self).serial,
            final(self).inserted == old(self).inserted,
            chains_atoms(final(self).chains@) == chains_atoms(old(self).chains@),
            r == has_serial(*old(self), serial),
            !r ==> final(self).chains@ == old(self).chains@,
            r ==> exists|c: int, s: int, k: int| #[trigger] is_latest(*old(self), serial, c, s, k)
                && anisotropy_set(*old(self), *final(self), factors, c, s, k),
    {
        match self.latest_atom(serial) {
            None => false,
            Some((c, s, k)) => {
                let ghost before = *self;
                let ghost cs = self.chains@;
                let mut chain = self.chains.remove(c);
                let ghost rs = chain.residues@;
                let mut res = chain.residues.remove(s);
                let ghost atoms0 = res.atoms@;
                let mut atom = res.atoms[k];
                atom.anisotropic = Some(factors);
                res.atoms.set(k, atom);
                chain.residues.insert(s, res);
                assert(chain.residues@ =~= rs.update(s as int, res));
                proof {
                    lemma_residues_update(rs, s as int, res);
                    assert(ascending(cs[c as int].residues@));
                    assert(forall|i: int| 0 <= i < chain.residues@.len() ==> #[trigger] chain.residues@[i].serial == rs[i].serial);
                    assert(ascending(chain.residues@));
                }
                self.chains.insert(c, chain);
                assert(self.chains@ =~= cs.update(c as int, chain));
                proof {
                    lemma_chains_update(cs, c as int, chain);
                    assert(res.atoms@ == atoms0.update(k as int, atom));
                    assert forall|c2: int, s2: int, k2: int| atom_at(before, c2, s2, k2) && !(c2 == c && s2 == s && k2 == k)
                        implies #[trigger] self.chains@[c2].residues@[s2].atoms@[k2] == before.chains@[c2].residues@[s2].atoms@[k2] by {
                        if c2 == c && s2 == s {
                        } else if c2 == c {
                            assert(self.chains@[c2].residues@[s2] == before.chains@[c2].residues@[s2]);
                        } else {
                            assert(self.chains@[c2] == before.chains@[c2]);
                        }
                    }
                    assert(anisotropy_set(before, *self, factors, c as int, s as int, k as int));
                }
                true
            },
        }
    }
}

/// Chain `c`, residue `s`, atom `k` exists in the model.
pub open spec fn atom_at(m: Model, c: int, s: int, k: int) -> bool {
    0 <= c < m.chains@.len() && 0 <= s < m.chains@[c].residues@.len() && 0 <= k < m.chains@[c].residues@[s].atoms@.len()
}

/// Whether the model holds an atom of this serial.
pub open spec fn has_serial(m: Model, serial: usize) -> bool {
    exists|c: int, s: int, k: int| atom_at(m, c, s, k) && (#[trigger] m.chains@[c].residues@[s].atoms@[k]).serial == serial
}

/// Atom `k` of residue `s` of chain `c` has the serial, and no atom of that
/// serial was received after it.
pub open spec fn is_latest(m: Model, serial: usize, c: int, s: int, k: int) -> bool {
    &&& atom_at(m, c, s, k)
    &&& m.chains@[c].residues@[s].atoms@[k].serial == serial
    &&& forall|c2: int, s2: int, k2: int| atom_at(m, c2, s2, k2) && (#[trigger] m.chains@[c2].residues@[s2].atoms@[k2]).serial == serial
        ==> m.chains@[c2].residues@[s2].atoms@[k2].order <= m.chains@[c].residues@[s].atoms@[k].order
}

/// In `after`, atom (`c`, `s`, `k`) carries the factors and is otherwise as
/// in `before`, every other atom is as in `before`, and the model has the
/// same chains and residues.
pub open spec fn anisotropy_set(before: Model, after: Model, factors: [Decimal; 6], c: int, s: int, k: int) -> bool {
    &&& after.chains@.len() == before.chains@.len()
    &&& forall|c2: int| 0 <= c2 < before.chains@.len() ==> (#[trigger] after.chains@[c2]).id == before.chains@[c2].id
        && after.chains@[c2].residues@.len() == before.chains@[c2].residues@.len()
    &&& forall|c2: int, s2: int| 0 <= c2 < before.chains@.len() && 0 <= s2 < before.chains@[c2].residues@.len()
        ==> (#[trigger] after.chains@[c2].residues@[s2]).serial == before.chains@[c2].residues@[s2].serial
        && after.chains@[c2].residues@[s2].atoms@.len() == before.chains@[c2].residues@[s2].atoms@.len()
    &&& after.chains@[c].residues@[s].atoms@[k] == (Atom { anisotropic: Some(factors), ..before.chains@[c].residues@[s].atoms@[k] })
    &&& forall|c2: int, s2: int, k2: int| atom_at(before, c2, s2, k2) && !(c2 == c && s2 == s && k2 == k)
        ==> #[trigger] after.chains@[c2].residues@[s2].atoms@[k2] == before.chains@[c2].residues@[s2].atoms@[k2]
}

/// Position (`c2`, `s2`, `k2`) comes before (`c`, `s`, `k`) in storage order.
pub open spec fn visited(c2: int, s2: int, k2: int, c: int, s: int, k: int) -> bool {
    c2 < c || (c2 == c && (s2 < s || (s2 == s && k2 < k)))
}

/// `best` is the latest atom of the serial among the positions before
/// (`c`, `s`, `k`), or `None` when there is none there.
pub open spec fn best_so_far(m: Model, serial: usize, best: Option<(usize, usize, usize)>, c: int, s: int, k: int) -> bool {
    match best {
        None => forall|c2: int, s2: int, k2: int| atom_at(m, c2, s2, k2) && visited(c2, s2, k2, c, s, k)
            ==> (#[trigger] m.chains@[c2].residues@[s2].atoms@[k2]).serial != serial,
        Some((bc, bs, bk)) => {
            &&& atom_at(m, bc as int, bs as int, bk as int)
            &&& m.chains@[bc as int].residues@[bs as int].atoms@[bk as int].serial == serial
            &&& forall|c2: int, s2: int, k2: int| atom_at(m, c2, s2, k2) && visited(c2, s2, k2, c, s, k)
                && (#[trigger] m.chains@[c2].residues@[s2].atoms@[k2]).serial == serial
                ==> m.chains@[c2].residues@[s2].atoms@[k2].order <= m.chains@[bc as int].residues@[bs as int].atoms@[bk as int].order
        },
    }
}

impl Transform {
    pub fn new() -> (r: Transform)
        ensures
            r.set@ == seq![false, false, false],
    {
        let z = Decimal::new(0, 0);
        let r = Transform { rows: [[z, z, z, z], [z, z, z, z], [z, z, z, z]], set: [false, false, false] };
        assert(r.set@ =~= seq![false, false, false]);
        r
    }

    /// Sets row `row` (0 to 2).
    pub fn set_row(&mut self, row: usize, values: [Decimal; 4])
        requires
            row < 3,
        ensures
            final(self).rows@ == old(self).rows@.update(row as int, values),
            final(self).set@ == old(self).set@.update(row as int, true),
    {
        self.rows[row] = values;
        self.set[row] = true;
    }

    /// Whether all three rows were set.
    pub fn valid(&self) -> (r: bool)
        ensures
            r == transform_valid(*self),
    {
        self.set[0] && self.set[1] && self.set[2]
    }
}

/// A transform is complete when all three of its rows were set.
pub open spec fn transform_valid(t: Transform) -> bool {
    t.set@[0] && t.set@[1] && t.set@[2]
}

/// The transform rows that the trailer counts: three for each complete transform.
pub open spec fn transform_rows(p: Pdb) -> int {
    (if p.origx matches Some(t) && transform_valid(t) { 3int } else { 0int })
        + (if p.scale matches Some(t) && transform_valid(t) { 3int } else { 0int })
        + 3 * mtrix_valid_count(p.mtrix@)
}

pub open spec fn mtrix_valid_count(ms: Seq<MtriX>) -> int
    decreases ms.len(),
{
    if ms.len() == 0 {
        0
    } else {
        mtrix_valid_count(ms.drop_last()) + if transform_valid(ms.last().transform) { 1int } else { 0int }
    }
}

/// Chain `c` of model `m` has the id, and no chain before it (in an earlier
/// model, or earlier in the same model) has.
pub open spec fn is_first_chain(p: Pdb, id: char, m: int, c: int) -> bool {
    &&& 0 <= m < p.models@.len()
    &&& 0 <= c < p.models@[m].chains@.len()
    &&& p.models@[m].chains@[c].id == id
    &&& forall|m2: int, c2: int|
        0 <= m2 < p.models@.len() && 0 <= c2 < p.models@[m2].chains@.len() && (m2 < m || (m2 == m
            && c2 < c)) ==> (#[trigger] p.models@[m2].chains@[c2]).id != id
}

/// There is at most one first chain of an id.
pub proof fn lemma_first_chain_unique(p: Pdb, id: char, m: int, c: int, m2: int, c2: int)
    requires
        is_first_chain(p, id, m, c),
        is_first_chain(p, id, m2, c2),
    ensures
        m == m2 && c == c2,
{
    if m2 < m || (m2 == m && c2 < c) {
        assert(p.models@[m2].chains@[c2].id != id);
    }
    if m < m2 || (m == m2 && c < c2) {
        assert(p.models@[m].chains@[c].id != id);
    }
}

impl Pdb {
    pub fn new() -> (r: Pdb)
        ensures
            r.remarks@.len() == 0,
            r.models@.len() == 0,
            r.unit_cell is None,
            r.symmetry is None,
            r.origx is None,
            r.scale is None,
            r.mtrix@.len() == 0,
    {
        Pdb {
            remarks: Vec::new(),
            models: Vec::new(),
            unit_cell: None,
            symmetry: None,
            origx: None,
            scale: None,
            mtrix: Vec::new(),
        }
    }

    /// The first chain with the given id, over the models in order: the model's
    /// index and the chain's.
    pub fn find_chain(&self, id: char) -> (r: Option<(usize, usize)>)
        ensures
            match r {
                Some((m, c)) => is_first_chain(*self, id, m as int, c as int),
                None => forall|m: int, c: int|
                    0 <= m < self.models@.len() && 0 <= c < self.models@[m].chains@.len()
                        ==> (#[trigger] self.models@[m].chains@[c]).id != id,
            },
    {
        let mut m: usize = 0;
        while m < self.models.len()
            invariant
                m <= self.models@.len(),
                forall|k: int, c: int|
                    0 <= k < m && 0 <= c < self.models@[k].chains@.len()
                        ==> (#[trigger] self.models@[k].chains@[c]).id != id,
            decreases self.models@.len() - m,
        {
            match self.models[m].chain_index(id) {
                Some(c) => {
                    return Some((m, c));
                },
                None => {},
            }
            m += 1;
        }
        None
    }

    /// Puts `chain` in place of chain `c` of model `m`, and returns the chain that stood there.
    pub fn swap_chain(&mut self, m: usize, c: usize, chain: Chain) -> (r: Chain)
        requires
            m < old(self).models@.len(),
            c < old(self).models@[m as int].chains@.len(),
        ensures
            r == old(self).models@[m as int].chains@[c as int],
            final(self).models@.len() == old(self).models@.len(),
            forall|k: int| 0 <= k < old(self).models@.len() && k != m ==> #[trigger] final(self).models@[k] == old(self).models@[k],
            final(self).models@[m as int].serial == old(self).models@[m as int].serial,
            final(self).models@[m as int].chains@ == old(self).models@[m as int].chains@.update(c as int, chain),
            final(self).remarks == old(self).remarks,
            final(self).unit_cell == old(self).unit_cell,
            final(self).symmetry == old(self).symmetry,
            final(self).origx == old(self).origx,
            final(self).scale == old(self).scale,
            final(self).mtrix == old(self).mtrix,
    {
        let ghost before = self.models@;
        let mut model = self.models.remove(m);
        let ghost chains = model.chains@;
        let r = model.chains.remove(c);
        model.chains.insert(c, chain);
        assert(model.chains@ =~= chains.update(c as int, chain));
        self.models.insert(m, model);
        assert(self.models@ =~= before.update(m as int, model));
        r
    }

    /// The number of complete transforms' rows, three for each, saturated at `usize::MAX`.
    pub fn transform_row_count(&self) -> (r: usize)
        ensures
            r == saturated(transform_rows(*self)),
    {
        let mut rows: usize = 0;
        let mut i: usize = 0;
        while i < self.mtrix.len()
            invariant
                i <= self.mtrix@.len(),
                rows == saturated(3 * mtrix_valid_count(self.mtrix@.subrange(0, i as int))),
                0 <= mtrix_valid_count(self.mtrix@.subrange(0, i as int)),
            decreases self.mtrix@.len() - i,
        {
            assert(self.mtrix@.subrange(0, i as int + 1).drop_last() =~= self.mtrix@.subrange(0, i as int));
            if self.mtrix[i].transform.valid() {
                rows = rows.saturating_add(3);
            }
            i += 1;
        }
        assert(self.mtrix@.subrange(0, i as int) =~= self.mtrix@);
        match &self.origx {
            Some(t) => if t.valid() {
                rows = rows.saturating_add(3);
            },
            None => {},
        }
        match &self.scale {
            Some(t) => if t.valid() {
                rows = rows.saturating_add(3);
            },
            None => {},
        }
        rows
    }

    /// The number of atoms over all models, saturated at `usize::MAX`.
    pub fn total_atom_count(&self) -> (r: usize)
        ensures
            r == saturated(models_atoms(self.models@) as int),
    {
        let mut total: usize = 0;
        let mut i: usize = 0;
        while i < self.models.len()
            invariant
                i <= self.models@.len(),
                total == saturated(models_atoms(self.models@.subrange(0, i as int)) as int),
            decreases self.models@.len() - i,
        {
            assert(self.models@.subrange(0, i as int + 1).drop_last() =~= self.models@.subrange(0, i as int));
            total = total.saturating_add(self.models[i].atom_count());
            i += 1;
        }
        assert(self.models@.subrange(0, i as int) =~= self.models@);
        total
    }
}

pub proof fn lemma_residues_prefix(rs: Seq<Residue>, j: int)
    requires
        0 <= j <= rs.len(),
    ensures
        residues_atoms(rs.subrange(0, j)) <= residues_atoms(rs),
    decreases rs.len(),
{
    if j < rs.len() {
        lemma_residues_prefix(rs.drop_last(), j);
        assert(rs.drop_last().subrange(0, j) =~= rs.subrange(0, j));
    } else {
        assert(rs.subrange(0, j) =~= rs);
    }
}

pub proof fn lemma_chains_prefix(cs: Seq<Chain>, j: int)
    requires
        0 < j <= cs.len(),
    ensures
        chains_atoms(cs.subrange(0, j - 1)) + residues_atoms(cs[j - 1].residues@) <= chains_atoms(cs),
    decreases cs.len(),
{
    if j < cs.len() {
        lemma_chains_prefix(cs.drop_last(), j);
        assert(cs.drop_last().subrange(0, j - 1) =~= cs.subrange(0, j - 1));
    } else {
        assert(cs.drop_last() =~= cs.subrange(0, j - 1));
    }
}

} // verus!
