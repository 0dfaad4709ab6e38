//! The page-file layer: building files, reading pages back under the three
//! alignment cases, parsing the meta sections, and recovering file views.

use photondb::page_file::{addr_file_id, page_addr, FileInfo, MetaReader, PageFileReader, PageFiles};

fn files(prefix: &str) -> PageFiles {
    PageFiles::new(String::from("store"), String::from(prefix))
}

fn get<'a>(map: &'a [(u32, FileInfo)], id: u32) -> &'a FileInfo {
    &map.iter().find(|e| e.0 == id).unwrap().1
}

#[test]
fn build_a_small_file() {
    let fs = files("test_builder");
    let mut builder = fs.new_file_builder(11233, 4096).unwrap();
    builder.add_delete_pages(&vec![1, 2]);
    builder.add_page(3, 1, &vec![3, 4, 1]).unwrap();
    let (info, image) = builder.finish();
    assert_eq!(info.meta().get_file_id(), 11233);
    assert_eq!(info.effective_size(), 3);
    assert!(image.len() > 4096);
}

#[test]
fn read_pages_under_each_alignment() {
    let fs = files("test_dread");
    let file_id = 2;
    let mut b = fs.new_file_builder(file_id, 4096).unwrap();
    b.add_delete_pages(&vec![page_addr(1, 0), page_addr(1, 1)]);
    b.add_page(1, page_addr(2, 2), &vec![7; 8192]).unwrap();
    b.add_page(2, page_addr(2, 3), &vec![8; 8192 / 2]).unwrap();
    b.add_page(3, page_addr(2, 4), &vec![9; 8192 / 3]).unwrap();
    let (info, image) = b.finish();
    assert_eq!(info.effective_size(), 8192 + 8192 / 2 + 8192 / 3);

    let reader = fs.open_page_reader(image, 4096).unwrap();
    // Aligned start and end.
    let hd = info.get_page_handle(page_addr(2, 2)).unwrap();
    let mut buf = vec![0u8; hd.size as usize];
    reader.read_exact_at(&mut buf, hd.offset as usize).unwrap();
    assert_eq!(buf, vec![7; 8192]);
    // Aligned start, unaligned end.
    let hd = info.get_page_handle(page_addr(2, 3)).unwrap();
    let mut buf = vec![0u8; hd.size as usize];
    reader.read_exact_at(&mut buf, hd.offset as usize).unwrap();
    assert_eq!(buf, vec![8; 8192 / 2]);
    // Unaligned start and end.
    let hd = info.get_page_handle(page_addr(2, 4)).unwrap();
    let mut buf = vec![0u8; hd.size as usize];
    reader.read_exact_at(&mut buf, hd.offset as usize).unwrap();
    assert_eq!(buf, vec![9; 8192 / 3]);
}

#[test]
fn meta_reader_round_trip() {
    let fs = files("test_simple_rw");
    let file_id = 2;
    let mut b = fs.new_file_builder(file_id, 4096).unwrap();
    b.add_delete_pages(&vec![page_addr(1, 0), page_addr(1, 1)]);
    b.add_page(1, page_addr(2, 2), &vec![7; 8192]).unwrap();
    b.add_page(2, page_addr(2, 3), &vec![8; 8192 / 2]).unwrap();
    b.add_page(3, page_addr(2, 4), &vec![9; 8192 / 3]).unwrap();
    let (ret_info, image) = b.finish();
    assert_eq!(ret_info.effective_size(), 8192 + 8192 / 2 + 8192 / 3);

    let meta_reader = fs
        .open_meta_reader(image.clone(), file_id, 4096)
        .unwrap();
    assert_eq!(
        meta_reader.file_metadata().total_page_size(),
        8192 + 8192 / 2 + 8192 / 3
    );
    let page3 = page_addr(2, 4);
    let (page3_offset, page3_size) = meta_reader.get_page_handle(page3).unwrap();
    let handle = ret_info.get_page_handle(page3).unwrap();
    assert_eq!(page3_offset as u32, handle.offset);
    assert_eq!(page3_size, 8192 / 3);

    let page_table = meta_reader.read_page_table();
    assert_eq!(page_table.len(), 3);
    let delete_tables = meta_reader.read_delete_pages();
    assert_eq!(delete_tables.len(), 2);

    let reader = fs.open_page_reader(image, 4096).unwrap();
    let mut buf = vec![0u8; page3_size];
    reader.read_exact_at(&mut buf, page3_offset as usize).unwrap();
    assert_eq!(buf, vec![9; buf.len()]);
}

#[test]
fn corrupted_footer_is_refused() {
    let fs = files("test_corrupt");
    let mut b = fs.new_file_builder(9, 4096).unwrap();
    b.add_page(1, page_addr(9, 0), &vec![1, 2, 3]).unwrap();
    let (_, mut image) = b.finish();
    let last = image.len() - 1;
    image[last] ^= 0xff;
    assert!(fs.open_meta_reader(image, 9, 4096).is_err());
    assert!(fs
        .open_meta_reader(vec![0u8; 16], 9, 4096)
        .is_err());
}

#[test]
fn file_info_recovery_and_add_new_file() {
    let fs = files("test_recovery");
    let info_builder = fs.new_info_builder();

    let mut map: Vec<(u32, FileInfo)> = Vec::new();
    let image1;
    {
        let file_id = 1;
        let mut b = fs.new_file_builder(file_id, 4096).unwrap();
        b.add_page(1, page_addr(file_id, 0), &vec![1; 10]).unwrap();
        b.add_page(2, page_addr(file_id, 1), &vec![2; 10]).unwrap();
        b.add_page(3, page_addr(file_id, 2), &vec![3; 10]).unwrap();
        let (file_info, image) = b.finish();
        image1 = image;
        map = info_builder.add_file_info(&map, file_info, &vec![]).unwrap();
    }

    let image2;
    {
        let file_id = 2;
        let delete_pages = vec![page_addr(1, 0)];
        let mut b = fs.new_file_builder(file_id, 4096).unwrap();
        b.add_page(4, page_addr(file_id, 0), &vec![1; 10]).unwrap();
        b.add_page(5, page_addr(file_id, 1), &vec![2; 10]).unwrap();
        b.add_page(6, page_addr(file_id, 4), &vec![3; 10]).unwrap();
        b.add_delete_pages(&delete_pages);
        let (file_info, image) = b.finish();
        image2 = image;

        let original_file1_active_size = get(&map, 1).effective_size();
        map = info_builder
            .add_file_info(&map, file_info, &delete_pages)
            .unwrap();

        let file1 = get(&map, 1);
        assert_eq!(file1.effective_size(), original_file1_active_size - 10);
        assert!(file1.get_page_handle(page_addr(1, 0)).is_none());
        assert!(file1.get_page_handle(page_addr(1, 1)).is_some());

        let file2 = get(&map, 2);
        let hd = file2.get_page_handle(page_addr(2, 4)).unwrap();
        assert_eq!(hd.size, 10);
        assert_eq!(hd.offset, 20);
    }

    {
        let known_files = vec![(1u32, image1), (2u32, image2)];
        let recovered = info_builder
            .recovery_base_file_infos(&known_files, 4096)
            .unwrap();
        let file1 = get(&recovered, 1);
        assert_eq!(file1.effective_size(), 20);
        assert!(file1.get_page_handle(page_addr(1, 0)).is_none());
        let file2 = get(&recovered, 2);
        assert_eq!(file2.effective_size(), 30);
        let hd = file2.get_page_handle(page_addr(2, 4)).unwrap();
        assert_eq!(hd.size, 10);
        assert_eq!(hd.offset, 20);
    }
}

#[test]
fn reopened_files_still_serve_their_pages() {
    // Fill past one file, roll to a second, then read everything back from
    // the recovered views, as a store reopened after a restart would.
    let fs = files("test_roll");
    let mut images = Vec::new();
    let mut expect = Vec::new();
    for file_id in 1..=2u32 {
        let mut b = fs.new_file_builder(file_id, 4096).unwrap();
        for idx in 0..4u32 {
            let payload = vec![(file_id as u8) * 16 + idx as u8; 8192];
            b.add_page(idx as u64, page_addr(file_id, idx), &payload)
                .unwrap();
            expect.push((page_addr(file_id, idx), payload));
        }
        let (_, image) = b.finish();
        images.push((file_id, image));
    }
    let recovered = fs
        .new_info_builder()
        .recovery_base_file_infos(&images, 4096)
        .unwrap();
    for (addr, payload) in expect {
        let file_id = (addr >> 32) as u32;
        let info = get(&recovered, file_id);
        let hd = info.get_page_handle(addr).unwrap();
        let image = images.iter().find(|e| e.0 == file_id).unwrap().1.clone();
        let reader = fs.open_page_reader(image, 4096).unwrap();
        let mut buf = vec![0u8; hd.size as usize];
        reader.read_exact_at(&mut buf, hd.offset as usize).unwrap();
        assert_eq!(buf, payload);
    }
}

#[test]
fn page_addresses_name_their_file() {
    assert_eq!(addr_file_id(page_addr(7, 123)), 7);
    assert_eq!(addr_file_id(page_addr(u32::MAX, 0)), u32::MAX);
    assert_eq!(page_addr(2, 3), (2u64 << 32) | 3);
}

#[test]
fn direct_flags_by_platform() {
    let fs = files("flags");
    assert_eq!(fs.direct_flags(true, false), 0x4000);
    assert_eq!(fs.direct_flags(true, true), 0x10000);
    assert_eq!(fs.direct_flags(false, false), 0);
}

#[test]
fn reader_serves_exact_windows() {
    let image: Vec<u8> = (0..=255u8).cycle().take(1024).collect();
    let reader = PageFileReader::from(image.clone(), true, 256);
    let mut buf = vec![0u8; 256];
    reader.read_exact_at(&mut buf, 256).unwrap();
    assert_eq!(&buf[..], &image[256..512]);
    let mut buf = vec![0u8; 100];
    reader.read_exact_at(&mut buf, 512).unwrap();
    assert_eq!(&buf[..], &image[512..612]);
    let mut buf = vec![0u8; 100];
    reader.read_exact_at(&mut buf, 300).unwrap();
    assert_eq!(&buf[..], &image[300..400]);
}

#[test]
fn meta_reader_type_is_reachable() {
    let fs = files("open");
    let mut b = fs.new_file_builder(7, 512).unwrap();
    b.add_page(1, page_addr(7, 0), &vec![5; 64]).unwrap();
    let (_, image) = b.finish();
    let reader = PageFileReader::from(image, true, 512);
    let mr: MetaReader = MetaReader::open(reader, 7).unwrap();
    assert_eq!(mr.file_metadata().get_file_id(), 7);
    assert_eq!(mr.file_metadata().total_page_size(), 64);
}
