use rowtable::index::BooleanIndex;
use rowtable::index::DiscreteIndex;
use rowtable::index::UniqueIndex;
use rowtable::selection::Row;
use rowtable::table::Indexer;
use rowtable::table::Query;
use rowtable::table::Selectable;
use rowtable::table::Table;

#[derive(Debug, Clone)]
struct Person {
    id: u32,
    first_name: String,
    last_name: String,
    age: u8,
}

struct PersonIndexer {
    by_id: UniqueIndex<u32>,
    by_last_name: DiscreteIndex<String>,
    adults: BooleanIndex,
}

impl Indexer<Person> for PersonIndexer {
    // The three spec_* items are the ghost model of this indexer; they are
    // erased from all executable paths and never called at run time.
    fn spec_new() -> Self {
        unreachable!()
    }

    fn spec_add(self, _row: u32, _item: Person) -> Self {
        unreachable!()
    }

    fn spec_remove(self, _row: u32, _item: Person) -> Self {
        unreachable!()
    }

    fn new() -> Self {
        PersonIndexer {
            by_id: UniqueIndex::new(),
            by_last_name: DiscreteIndex::new(),
            adults: BooleanIndex::new(),
        }
    }

    fn add(&mut self, row: Row, item: &Person) {
        self.by_id.add(row, item.id);
        self.by_last_name.add(row, &item.last_name);
        self.adults.add(row, item.age >= 18);
    }

    fn remove(&mut self, row: Row, item: &Person) {
        self.by_id.remove(&item.id);
        self.by_last_name.remove(row, &item.last_name);
        self.adults.remove(row);
    }
}

impl Selectable for Person {
    type Indexer = PersonIndexer;

    fn duplicate(&self) -> Person {
        self.clone()
    }
}

fn by_id(table: &Table<Person>, id: u32) -> Query {
    table.select().maybe_only_row(table.indexer().by_id.get(&id))
}

fn by_last_name(table: &Table<Person>, last_name: &str) -> Query {
    table.select().and(table.indexer().by_last_name.get(&last_name.to_string()))
}

fn adults(table: &Table<Person>) -> Query {
    table.select().and(table.indexer().adults.get())
}

fn people() -> Table<Person> {
    let mut table = Table::in_memory();

    table.insert(Person {
        id: 1,
        first_name: "Aleksei".to_string(),
        last_name: "Voronov".to_string(),
        age: 28,
    });

    table.insert(Person {
        id: 2,
        first_name: "Polina".to_string(),
        last_name: "Zhuravleva".to_string(),
        age: 32,
    });

    table.insert(Person {
        id: 3,
        first_name: "Olivia Alekseevna".to_string(),
        last_name: "Zhuravleva".to_string(),
        age: 0,
    });

    table
}

#[test]
fn can_select_adults() {
    let people = people(); // let people be people
    let adults: Vec<_> = adults(&people).collect(&people).unwrap();

    assert_eq!(adults.len(), 2);
    assert_eq!(adults[0].id, 1);
    assert_eq!(adults[1].id, 2);
}

#[test]
fn can_select_by_last_name() {
    let people = people();
    let zhuralvevas: Vec<_> = by_last_name(&people, "Zhuravleva").collect(&people).unwrap();

    assert_eq!(zhuralvevas.len(), 2);
    assert_eq!(zhuralvevas[0].id, 2);
    assert_eq!(zhuralvevas[1].id, 3);
}

#[test]
fn can_select_by_id() {
    let people = people();
    let voronov = by_id(&people, 1).first(&people).unwrap();

    assert!(voronov.is_some());
    assert_eq!(voronov.unwrap().id, 1);
}

#[test]
fn can_iterate() {
    let people = people();
    let babies: Vec<_> =
        people.select().iter(&people).unwrap().into_iter().filter(|p| p.age < 1).collect();

    assert_eq!(babies.len(), 1);
    assert_eq!(babies[0].id, 3);
}

#[test]
fn updating_saves_new_info() {
    let mut people = people();
    let aleksei = by_id(&people, 1).first(&people).unwrap().unwrap();
    assert_eq!(aleksei.age, 28);

    let query = by_id(&people, 1);
    query
        .apply(&mut people, |mut p: Person| {
            p.age = 29;
            p
        })
        .unwrap();
    let aleksei = by_id(&people, 1).first(&people).unwrap().unwrap();
    assert_eq!(aleksei.age, 29);
}

#[test]
fn updating_updates_indexes() {
    let mut people = people();

    let voronov = by_last_name(&people, "Voronov").first(&people).unwrap().unwrap();
    assert_eq!(voronov.last_name, "Voronov");

    let query = by_last_name(&people, "Voronov");
    query
        .apply(&mut people, |mut p: Person| {
            p.last_name = "Smith".to_string();
            p
        })
        .unwrap();

    let voronov = by_last_name(&people, "Voronov").first(&people).unwrap();
    let smith = by_last_name(&people, "Smith").first(&people).unwrap();
    assert!(voronov.is_none());
    assert!(smith.is_some());
}

#[test]
fn adults_gain_member_after_update() {
    // ages {28, 32, 0}: the predicate age >= 18 holds of the first two.
    let mut people = people();
    let grown: Vec<_> = adults(&people).collect(&people).unwrap();
    assert_eq!(grown.len(), 2);
    assert_eq!(grown[0].id, 1);
    assert_eq!(grown[1].id, 2);

    // Raising the third record's age to 20 must make the query return all
    // three, in insertion order.
    let query = by_id(&people, 3);
    query
        .apply(&mut people, |mut p: Person| {
            p.age = 20;
            p
        })
        .unwrap();
    let grown: Vec<_> = adults(&people).collect(&people).unwrap();
    assert_eq!(grown.len(), 3);
    assert_eq!(grown[0].id, 1);
    assert_eq!(grown[1].id, 2);
    assert_eq!(grown[2].id, 3);
}

#[test]
fn renaming_moves_between_groups() {
    // Two records share the discrete key "Zhuravleva", in ascending row order.
    let mut people = people();
    let group: Vec<_> = by_last_name(&people, "Zhuravleva").collect(&people).unwrap();
    assert_eq!(group.len(), 2);
    assert_eq!(group[0].id, 2);
    assert_eq!(group[1].id, 3);

    // Renaming one removes it from that group; the new key returns only it.
    let query = by_id(&people, 3);
    query
        .apply(&mut people, |mut p: Person| {
            p.last_name = "Sokolova".to_string();
            p
        })
        .unwrap();
    let group: Vec<_> = by_last_name(&people, "Zhuravleva").collect(&people).unwrap();
    assert_eq!(group.len(), 1);
    assert_eq!(group[0].id, 2);
    let moved: Vec<_> = by_last_name(&people, "Sokolova").collect(&people).unwrap();
    assert_eq!(moved.len(), 1);
    assert_eq!(moved[0].id, 3);
}

#[test]
fn toggling_a_predicate_field_twice_restores_the_index() {
    let mut people = people();
    let before: Vec<u32> =
        people.indexer().adults.get().rows().iter().map(|r| r.as_u32()).collect();

    let query = by_id(&people, 1);
    query
        .apply(&mut people, |mut p: Person| {
            p.age = 17;
            p
        })
        .unwrap();
    let query = by_id(&people, 1);
    query
        .apply(&mut people, |mut p: Person| {
            p.age = 28;
            p
        })
        .unwrap();

    let after: Vec<u32> = people.indexer().adults.get().rows().iter().map(|r| r.as_u32()).collect();
    assert_eq!(before, after);
}

#[test]
fn rows_are_stable_across_updates() {
    let mut people = people();
    // Inserting three records yields rows 0, 1, 2 in insertion order.
    assert_eq!(people.len(), 3);
    for (position, expected_id) in [(0u32, 1u32), (1, 2), (2, 3)] {
        let record = people.retrieve_row(Row::from_u32(position)).unwrap();
        assert_eq!(record.id, expected_id);
    }

    // An update rewrites a record in place; no row moves.
    let query = by_id(&people, 2);
    query
        .apply(&mut people, |mut p: Person| {
            p.first_name = "Pauline".to_string();
            p
        })
        .unwrap();
    assert_eq!(people.len(), 3);
    for (position, expected_id) in [(0u32, 1u32), (1, 2), (2, 3)] {
        let record = people.retrieve_row(Row::from_u32(position)).unwrap();
        assert_eq!(record.id, expected_id);
    }
}

#[test]
fn select_covers_the_whole_table() {
    let mut people = people();
    assert_eq!(people.select().count(), 3);
    people.insert(Person {
        id: 4,
        first_name: "Ivan".to_string(),
        last_name: "Sokolov".to_string(),
        age: 41,
    });
    assert_eq!(people.select().count(), people.len() as u64);
}

#[test]
fn unique_index_keeps_the_last_write() {
    let mut people = people();
    // A colliding id silently overwrites the mapping: last write wins.
    people.insert(Person {
        id: 1,
        first_name: "Aleksei the Second".to_string(),
        last_name: "Morozov".to_string(),
        age: 50,
    });
    let found = by_id(&people, 1).first(&people).unwrap().unwrap();
    assert_eq!(found.last_name, "Morozov");
}

#[test]
fn absent_key_yields_no_match() {
    let people = people();
    assert!(people.indexer().by_last_name.get(&"Smith".to_string()).is_empty());
    assert_eq!(by_last_name(&people, "Smith").count(), 0);
    assert!(by_last_name(&people, "Smith").first(&people).unwrap().is_none());
    assert!(people.indexer().by_id.get(&99).is_none());
    assert_eq!(by_id(&people, 99).count(), 0);
    assert!(by_id(&people, 99).first(&people).unwrap().is_none());
}

#[test]
fn updating_one_row_directly() {
    let mut people = people();
    people
        .update(Row::from_u32(2), |mut p: Person| {
            p.age = 1;
            p
        })
        .unwrap();
    assert_eq!(people.retrieve_row(Row::from_u32(2)).unwrap().age, 1);

    let result = people.update(Row::from_u32(99), |p: Person| p);
    assert!(result.is_err());
    assert_eq!(people.len(), 3);
}

#[test]
fn out_of_range_rows_are_reported() {
    let people = people();
    let stray = Row::from_u32(99);
    assert!(people.retrieve_row(stray).is_err());
    let query = people.select().only_row(stray);
    assert!(query.collect(&people).is_err());
    assert!(query.first(&people).is_err());

    let mut people = people;
    let query = people.select().only_row(stray);
    let result = query.apply(&mut people, |p: Person| p);
    assert!(result.is_err());
    // A failed apply leaves the table untouched.
    assert_eq!(people.len(), 3);
    assert_eq!(people.retrieve_row(Row::from_u32(0)).unwrap().age, 28);
}

#[test]
fn empty_table_has_nothing_selected() {
    let table: Table<Person> = Table::in_memory();
    assert!(table.is_empty());
    assert_eq!(table.select().count(), 0);
    assert!(table.select().first(&table).unwrap().is_none());
    let all: Vec<Person> = table.select().collect(&table).unwrap();
    assert!(all.is_empty());
}
