use toid::beat::Beat;
use toid::name_map::NameMap;
use toid::section::{Section, SectionMap};

fn section(beats: i32) -> Section {
    Section { start: Beat::from_beats(beats), tracks: NameMap::new() }
}

#[test]
fn section_map_from_sections_needs_increasing_starts() {
    let map = SectionMap::from_sections(vec![section(-4), section(0), section(8)]).unwrap();
    assert_eq!(map.len(), 3);
    assert_eq!(map.section(0).start, Beat::from_beats(-4));
    assert_eq!(map.section(2).start, Beat::from_beats(8));
    assert!(SectionMap::from_sections(vec![section(0), section(8), section(4)]).is_none());
    assert!(SectionMap::from_sections(vec![section(0), section(0)]).is_none());
    assert_eq!(SectionMap::from_sections(vec![]).unwrap().len(), 0);
    assert_eq!(SectionMap::from_sections(vec![section(3)]).unwrap().len(), 1);
}

#[test]
fn section_at_finds_the_last_section_that_has_started() {
    let map = SectionMap::from_sections(vec![section(0), section(8)]).unwrap();
    assert_eq!(map.section_at(Beat::new(-1).unwrap()), None);
    assert_eq!(map.section_at(Beat::from_beats(0)), Some(0));
    assert_eq!(map.section_at(Beat::new(7679).unwrap()), Some(0));
    assert_eq!(map.section_at(Beat::from_beats(8)), Some(1));
    assert_eq!(map.section_at(Beat::from_beats(1000)), Some(1));
    assert_eq!(SectionMap::new().section_at(Beat::from_beats(0)), None);
}
