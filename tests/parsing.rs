use addresslibgen::common::{Offset, Version};
use addresslibgen::names::{parse_bin_name, parse_diff_name, parse_dir_name};
use addresslibgen::diffs::{parse_diff_line, Diff, DiffList, LineError, ReportError};
use addresslibgen::offsets::{parse_export_line, ExportError, ExportKind, OffsetList};
use addresslibgen::text::parse_hex;

fn lines(text: &str) -> Vec<Vec<u8>> {
    text.lines().map(|l| l.as_bytes().to_vec()).collect()
}

#[test]
fn test_diffs() {
    let text = "Previous version had 811238 total offsets that needed matching from.
Next version had 891318 total offsets that needed matching to.
Matched 164485 offsets from one version to another (20.276% / 18.454%) over 187328 passes.
The amount of matches that were perfect was 157617 (95.825%).
Previous version had 646753 (79.724%) offsets that could not be matched to new version.
Next version had 726833 (81.546%) offsets that could not be matched to old version.
The amount of objects that have the exact same address in previous and next version is 0 (0%).
Matches by segment in previous version:
0x1000 .text: 6748 (2.15%)
0x2C0C000 .interpr: 3 (60%)
0x2C17000 .idata: 13 (1.879%)
0x2C18670 .rdata: 127560 (33.32%)
0x36CB000 .data: 30161 (26.5%)
Converted 12417 locations to 12240 functions in previous version.
Overall success: 18.454%

0x1436C69FE\t0x142C6201E
0x1436C70A4\t0x142C62630
0x1436CAE1D\t0x142C6065D
0x1430C7E4C\t0x14272DE5C
0x142E626D8\t0x1424D0528
";
    let result = DiffList::parse_diffs(&lines(text))
        .unwrap()
        .iter()
        .map(|x| (x.left.0, x.right.0))
        .collect::<Vec<_>>();
    assert_eq!(
        result,
        [
            (0x36C69FE, 0x2C6201E),
            (0x36C70A4, 0x2C62630),
            (0x36CAE1D, 0x2C6065D),
            (0x30C7E4C, 0x272DE5C),
            (0x2E626D8, 0x24D0528),
        ]
    );
}

#[test]
fn test_base_address() {
    let result = OffsetList::parse_base_address(&lines("version\t1\nbaseaddress\t140000000\n")).unwrap();
    assert_eq!(result, 0x140000000);
}

#[test]
fn test_function_offsets() {
    let text = "version\t1
func\t140001000\t14000100B
func\t140001060\t14000106B
func\t140001080\t140001083
func\t140001090\t140001105
func\t140001110\t140001113
func\t140001120\t14000112C
func\t140001140\t140001170
func\t140001180\t140001187
";
    let result = OffsetList::parse_generic_offsets(&lines(text), 0x140000000, ExportKind::Function)
        .unwrap()
        .iter()
        .map(|x| x.0)
        .collect::<Vec<_>>();
    assert_eq!(result, [0x1000, 0x1060, 0x1080, 0x1090, 0x1110, 0x1120, 0x1140, 0x1180]);
}

#[test]
fn test_global_offsets() {
    let text = "version\t1
global\t142C0F30C\tchar[4]
global\t142C166DC\tchar[292]
global\t142C17000\tBOOL __stdcall(LPSTR lpBuffer, LPDWORD pcbBuffer)
global\t146736290\tPVOID
global\t14674C73B
global\t146A8C000
global\t146A8F570
";
    let result = OffsetList::parse_generic_offsets(&lines(text), 0x140000000, ExportKind::Global)
        .unwrap()
        .iter()
        .map(|x| x.0)
        .collect::<Vec<_>>();
    assert_eq!(result, [0x2C0F30C, 0x2C166DC, 0x2C17000, 0x6736290, 0x674C73B, 0x6A8C000, 0x6A8F570]);
}

#[test]
fn test_name_offsets() {
    let text = "version\t1
name\t140001000\t??0_Fac_node@std@@QEAA@PEAU01@PEAV_Facet_base@1@@Z\tstd::_Fac_node::_Fac_node(std::_Fac_node *,std::_Facet_base *)
name\t140001080\tnullsub_4382
name\t1400015C0\t?Swap@?$List@UListEntry@details@Concurrency@@VNoCount@CollectionTypes@23@@details@Concurrency@@QEAAXPEAV123@@Z\tConcurrency::details::List<Concurrency::details::ListEntry,Concurrency::details::CollectionTypes::NoCount>::Swap(Concurrency::details::List<Concurrency::details::ListEntry,Concurrency::details::CollectionTypes::NoCount> *)
name\t1400015D0\t?Swap@?$List@UListEntry@details@Concurrency@@VNoCount@CollectionTypes@23@@details@Concurrency@@QEAAXPEAV123@@Z_0\tConcurrency::details::List<Concurrency::details::ListEntry,Concurrency::details::CollectionTypes::NoCount>::Swap(Concurrency::details::List<Concurrency::details::ListEntry,Concurrency::details::CollectionTypes::NoCount> *)
name\t140002A70\tunknown_libname_1
name\t146737000\tExceptionDir
name\t146A8C000\tTlsStart
name\t146A8F570\tTlsEnd
";
    let result = OffsetList::parse_generic_offsets(&lines(text), 0x140000000, ExportKind::Name)
        .unwrap()
        .iter()
        .map(|x| x.0)
        .collect::<Vec<_>>();
    assert_eq!(
        result,
        [0x0001000, 0x0001080, 0x00015C0, 0x00015D0, 0x0002A70, 0x6737000, 0x6A8C000, 0x6A8F570]
    );
}

#[test]
fn diff_report_errors() {
    assert_eq!(DiffList::parse_diffs(&lines("header only\n")).err(), Some(ReportError::NoHeaderEnd));
    assert_eq!(
        DiffList::parse_diffs(&lines("Overall success: 1%\nnot blank\n")).err(),
        Some(ReportError::NoBlankAfterHeader)
    );
    assert_eq!(
        DiffList::parse_diffs(&lines("Overall success: 1%\n\n0x141\t0x142\nbad\n")).err(),
        Some(ReportError::BadLine { at: 3, error: LineError::NoMatch })
    );
    let stops = DiffList::parse_diffs(&lines("Overall success: 1%\n\n0x141\t0x142\n\nbad\n")).unwrap();
    assert_eq!(stops, vec![Diff { left: Offset(1), right: Offset(2) }]);
    assert_eq!(DiffList::parse_diffs(&lines("Overall success: 1%")).unwrap(), vec![]);
}

#[test]
fn diff_line_cases() {
    assert_eq!(parse_diff_line(b"0x14FF\t0x1410"), Ok(Diff { left: Offset(0xFF), right: Offset(0x10) }));
    assert_eq!(parse_diff_line(b"0x14FF 0x1410"), Err(LineError::NoMatch));
    assert_eq!(parse_diff_line(b"0x15FF\t0x1410"), Err(LineError::NoMatch));
    assert_eq!(parse_diff_line(b"0x14100000000\t0x1410"), Err(LineError::OutOfRange));
    assert_eq!(parse_diff_line(b"  x0x14A\t0x14B"), Ok(Diff { left: Offset(0xA), right: Offset(0xB) }));
}

#[test]
fn export_line_cases() {
    let base = 0x140000000;
    assert_eq!(parse_export_line(b"global\t140000010", ExportKind::Global, base, 1), Ok(Offset(0x10)));
    assert_eq!(parse_export_line(b" name\t140000020\tx", ExportKind::Name, base, 1), Ok(Offset(0x20)));
    assert_eq!(parse_export_line(b"func\t140000010", ExportKind::Function, base, 2), Err(ExportError::NoMatch { at: 2 }));
    assert_eq!(parse_export_line(b"name\t100000000", ExportKind::Name, base, 3), Err(ExportError::BelowBase { at: 3 }));
    assert_eq!(parse_export_line(b"name\t250000000", ExportKind::Name, base, 4), Err(ExportError::TooFar { at: 4 }));
    assert_eq!(
        parse_export_line(b"name\t11111111111111111", ExportKind::Name, base, 5),
        Err(ExportError::BadAddress { at: 5 })
    );
}

#[test]
fn export_header_cases() {
    assert_eq!(OffsetList::parse_base_address(&lines("version\t2\nbaseaddress\t1\n")), Err(ExportError::UnsupportedVersion));
    assert_eq!(OffsetList::parse_base_address(&lines("vers\t1\n")), Err(ExportError::NoVersion));
    assert_eq!(OffsetList::parse_base_address(&lines("# version\t1\n baseaddress\t10\n")), Ok(0x10));
    assert_eq!(OffsetList::parse_base_address(&lines("version\t1\n")), Err(ExportError::NoBaseAddress));
    assert_eq!(
        OffsetList::parse_generic_offsets(&lines("version\t1\nglobal\tzz\n"), 0, ExportKind::Global),
        Err(ExportError::NoMatch { at: 1 })
    );
}

#[test]
fn hex_values() {
    assert_eq!(parse_hex(b"ff10", 0, 4), Some(0xff10));
    assert_eq!(parse_hex(b"FFFFFFFFFFFFFFFF", 0, 16), Some(u64::MAX));
    assert_eq!(parse_hex(b"10000000000000000", 0, 17), None);
}

#[test]
fn file_name_versions() {
    assert_eq!(parse_dir_name(b"1.10.163"), Ok(Some(Version::new(1, 10, 163, 0))));
    assert_eq!(parse_dir_name(b"build 1.2.3 final"), Ok(Some(Version::new(1, 2, 3, 0))));
    assert_eq!(parse_dir_name(b"1.2"), Ok(None));
    assert_eq!(parse_dir_name(b"1.2.70000"), Err(()));
    assert_eq!(
        parse_diff_name(b"1.10.162_1.10.163.txt"),
        Ok(Some((Version::new(1, 10, 162, 0), Version::new(1, 10, 163, 0))))
    );
    assert_eq!(parse_diff_name(b"1.10.162_1.10.163.log"), Ok(None));
    assert_eq!(parse_bin_name(b"version-1-10-163-0.bin"), Ok(Some(Version::new(1, 10, 163, 0))));
    assert_eq!(parse_bin_name(b"version-1-10-163.bin"), Ok(None));
    assert_eq!(parse_bin_name(b"version-1-10-163-99999.bin"), Err(()));
}
