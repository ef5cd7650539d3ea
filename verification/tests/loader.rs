use sigma4_engine::loader::{
    category_code, entity_from_record, is_chinese_entity, parse_records, CsvRecord,
};

const HEADER: &str = "组织名称,简称,行业,地区,备注,类型编号,分类\n";

fn org(r: &CsvRecord) -> String {
    r.org.iter().collect()
}

#[test]
fn category_code_reads_first_letter() {
    assert_eq!(category_code("A. 宏观对冲基金"), Some(0));
    assert_eq!(category_code("  B"), Some(1));
    assert_eq!(category_code("\u{3000}C. 家族办公室"), Some(2));
    assert_eq!(category_code("D"), Some(3));
    assert_eq!(category_code("E. 其他"), Some(4));
    assert_eq!(category_code("X. 未知分类"), None);
    assert_eq!(category_code("1. 其他"), None);
    assert_eq!(category_code(" 宏观"), None);
    assert_eq!(category_code("   "), None);
    assert_eq!(category_code(""), None);
}

#[test]
fn chinese_entity_detection() {
    assert!(is_chinese_entity("中国中信集团"));
    assert!(is_chinese_entity("中投公司"));
    assert!(is_chinese_entity("全国社保基金理事会"));
    assert!(is_chinese_entity("红杉中国"));
    assert!(!is_chinese_entity("BlackRock"));
    assert!(!is_chinese_entity("中"));
    assert!(!is_chinese_entity(""));
}

#[test]
fn parse_empty_csv() {
    assert!(parse_records("").is_empty());
    assert!(parse_records(HEADER).is_empty());
    assert!(parse_records(&format!("{HEADER}\n\n")).is_empty());
}

#[test]
fn parse_skips_blank_lines_and_numbers_rows_by_line() {
    let csv = format!(
        "{HEADER}Test Entity,TE,Industry,Region,Note,Type,A. 宏观对冲基金\n\n Another Entity ,AE,Industry2,Region2,Note2,Type2,B\n"
    );
    let rs = parse_records(&csv);
    assert_eq!(rs.len(), 2);
    assert_eq!((rs[0].line, rs[0].category), (1, 0));
    assert_eq!(org(&rs[0]), "Test Entity");
    assert_eq!((rs[1].line, rs[1].category), (3, 1));
    assert_eq!(org(&rs[1]), "Another Entity");
}

#[test]
fn parse_accepts_crlf_and_bom() {
    let csv = format!("\u{feff}{}\r\nTest Entity,TE,Industry,Region,Note,Type,A. 宏观对冲基金\r\n", HEADER.trim_end());
    let rs = parse_records(&csv);
    assert_eq!(rs.len(), 1);
    assert_eq!(org(&rs[0]), "Test Entity");
}

#[test]
fn parse_requires_exactly_seven_fields_and_no_quotes() {
    let csv = format!(
        "{HEADER}Short,TE,Industry,Region,Note,Type\nTest, Inc.,TI,Industry,Region,Note,Type,A. 宏观对冲基金\n\"Quoted\",TE,Industry,Region,Note,Type,A\nOk,TE,Industry,Region,Note,NotANumber,C\n"
    );
    let rs = parse_records(&csv);
    assert_eq!(rs.len(), 1);
    assert_eq!((rs[0].line, rs[0].category), (4, 2));
}

#[test]
fn parse_unknown_category_defaults_to_e() {
    let csv = format!("{HEADER}T1,TE,I,R,N,T,X. 未知分类\nT2,TE,I,R,N,T,. 分类\nT3,TE,I,R,N,T, 宏观\n");
    let rs = parse_records(&csv);
    assert_eq!(rs.len(), 3);
    assert!(rs.iter().all(|r| r.category == 4));
}

#[test]
fn parse_marks_chinese_entities() {
    let csv = format!(
        "{HEADER}中国中信集团,中信,金融,北京,Note,T,A. 宏观对冲基金\nBlackRock,BR,Finance,US,Note,T,B. 主权财富基金\n中投公司,CIC,Finance,Beijing,Note,T,A\n"
    );
    let rs = parse_records(&csv);
    assert_eq!(rs.len(), 3);
    assert_eq!(org(&rs[0]), "中国中信集团");
    assert_eq!(rs.iter().map(|r| r.chinese).collect::<Vec<_>>(), vec![true, false, true]);
}

#[test]
fn parse_numbers_many_rows() {
    let mut csv = String::from(HEADER);
    for i in 0..100 {
        csv.push_str(&format!("E{i},E{i},Ind,Reg,Note,T,A\n"));
    }
    let rs = parse_records(&csv);
    assert_eq!(rs.len(), 100);
    for (i, r) in rs.iter().enumerate() {
        assert_eq!(r.line, (i + 1) as u32);
    }
    let long = format!("{HEADER}{},Long,Industry,Region,Note,T,A\n", "A".repeat(1000));
    assert_eq!(parse_records(&long)[0].org.len(), 1000);
}

fn record(line: u32, org: &str, category: u8, chinese: bool) -> CsvRecord {
    CsvRecord { line, org: org.chars().collect(), category, chinese }
}

#[test]
fn entity_from_record_lays_out_four_facets() {
    let mut priors = [[0u32; 4]; 4];
    for (f, row) in priors.iter_mut().enumerate() {
        for (j, w) in row.iter_mut().enumerate() {
            *w = (0.1f32 + 0.05 * (f * 4 + j) as f32).to_bits();
        }
    }
    let e = entity_from_record(&record(5, "中国投资有限责任公司", 2, true), &priors);
    assert_eq!(e.id, 5);
    assert_eq!(e.entity_type, 2);
    assert_eq!(e.num_slices, 4);
    for f in 0..16 {
        assert_eq!(e.slice_dims[f], if f < 4 { 4 } else { 0 }, "dims[{f}]");
        for j in 0..8 {
            let want = if f < 4 && j < 4 { priors[f][j] } else { 0 };
            assert_eq!(e.coordinates[f][j], want, "coordinates[{f}][{j}]");
        }
    }
    assert_eq!(e.steady_state.ownership_type, 1);
    assert_eq!(e.steady_state.geography, 0);
    assert_eq!(e.name_len, 30);
    assert_eq!(e.ring_head, 0);
    assert_eq!(e.ring_tail, 0);
}

#[test]
fn entity_from_record_ascii_name_and_private_owner() {
    let e = entity_from_record(&record(1, "Bridgewater Associates", 1, false), &[[0u32; 4]; 4]);
    assert_eq!(e.name_len, 22);
    assert_eq!(e.steady_state.ownership_type, 0);
    assert_eq!(e.valid_until, i64::MAX);
}

#[test]
fn entity_from_record_name_length_keeps_low_sixteen_bits() {
    let name: String = std::iter::repeat('中').take(21846).collect();
    assert_eq!(name.len(), 65538);
    let e = entity_from_record(&record(3, &name, 0, false), &[[0u32; 4]; 4]);
    assert_eq!(e.name_len, 2);
    let mixed = "aé中😀";
    assert_eq!(entity_from_record(&record(3, mixed, 0, false), &[[0u32; 4]; 4]).name_len, 10);
}
