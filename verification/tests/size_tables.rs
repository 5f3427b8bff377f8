use zfs_stats::size::{format_bytes, parse_size_string};

#[test]
fn format_table() {
    let table: [(u64, &str); 125] = [
        (1, "1B"),
        (2, "2B"),
        (3, "3B"),
        (4, "4B"),
        (8, "8B"),
        (9, "9B"),
        (10, "10B"),
        (13, "13B"),
        (17, "17B"),
        (22, "22B"),
        (37, "37B"),
        (59, "59B"),
        (72, "72B"),
        (99, "99B"),
        (100, "100B"),
        (117, "117B"),
        (151, "151B"),
        (189, "189B"),
        (286, "286B"),
        (473, "473B"),
        (638, "638B"),
        (740, "740B"),
        (999, "999B"),
        (1000, "1000B"),
        (1023, "1023B"),
        (1024, "1.00K"),
        (1025, "1.00K"),
        (1150, "1.12K"),
        (1152, "1.12K"),
        (1408, "1.38K"),
        (1836, "1.79K"),
        (2047, "2.00K"),
        (2048, "2.00K"),
        (2251, "2.20K"),
        (2953, "2.88K"),
        (4477, "4.37K"),
        (5125, "5.00K"),
        (5186, "5.06K"),
        (10239, "10.00K"),
        (10240, "10.0K"),
        (10241, "10.0K"),
        (12936, "12.6K"),
        (15059, "14.7K"),
        (20243, "19.8K"),
        (21110, "20.6K"),
        (44612, "43.6K"),
        (52984, "51.7K"),
        (79043, "77.2K"),
        (90160, "88.0K"),
        (102399, "100.0K"),
        (102400, "100K"),
        (102401, "100K"),
        (156612, "153K"),
        (228693, "223K"),
        (293392, "287K"),
        (295063, "288K"),
        (740251, "723K"),
        (1044816, "1020K"),
        (1048063, "1023K"),
        (1048064, "1024K"),
        (1048065, "1024K"),
        (1048575, "1024K"),
        (1048576, "1.00M"),
        (1572864, "1.50M"),
        (1707390, "1.63M"),
        (1945302, "1.86M"),
        (3997945, "3.81M"),
        (4050027, "3.86M"),
        (6708931, "6.40M"),
        (7227476, "6.89M"),
        (11404593, "10.9M"),
        (12556514, "12.0M"),
        (19523814, "18.6M"),
        (24967735, "23.8M"),
        (53703809, "51.2M"),
        (66781128, "63.7M"),
        (113209390, "108M"),
        (123456789, "118M"),
        (127350369, "121M"),
        (153867436, "147M"),
        (211510432, "202M"),
        (331821538, "316M"),
        (492913437, "470M"),
        (713997621, "681M"),
        (904150539, "862M"),
        (1400126122, "1.30G"),
        (2123782081, "1.98G"),
        (2315877527, "2.16G"),
        (3958664297, "3.69G"),
        (4294967296, "4.00G"),
        (7717592285, "7.19G"),
        (7809768138, "7.27G"),
        (8869107378, "8.26G"),
        (9999999999, "9.31G"),
        (14044282241, "13.1G"),
        (27683816304, "25.8G"),
        (33142664018, "30.9G"),
        (35850114621, "33.4G"),
        (68464564277, "63.8G"),
        (84228258104, "78.4G"),
        (91721019945, "85.4G"),
        (152444250634, "142G"),
        (173033202585, "161G"),
        (411193139686, "383G"),
        (491335229264, "458G"),
        (637787639868, "594G"),
        (1040096623386, "969G"),
        (1099511627775, "1024G"),
        (1099511627776, "1.00T"),
        (1711760158815, "1.56T"),
        (2013078645306, "1.83T"),
        (2861439289343, "2.60T"),
        (3779513097034, "3.44T"),
        (5944591154218, "5.41T"),
        (6438805798333, "5.86T"),
        (12900615097481, "11.7T"),
        (17325949882526, "15.8T"),
        (17592186056761, "16.0T"),
        (17735130848444, "16.1T"),
        (26835738822095, "24.4T"),
        (61166925313025, "55.6T"),
        (64665653283918, "58.8T"),
        (77969718675585, "70.9T"),
        (125591540756168, "114T"),
        (140737489403904, "128T"),
    ];
    for (bytes, text) in table {
        assert_eq!(format_bytes(bytes), text, "{}", bytes);
    }
}

#[test]
fn parse_table() {
    let table: [(&str, u64); 41] = [
        ("1.5K", 1536),
        ("2.25M", 2359296),
        ("0.5G", 536870912),
        ("12.3G", 13207024435),
        ("1.23T", 1352399302164),
        ("999.9M", 1048471142),
        ("0.01K", 10),
        ("0.001K", 1),
        ("100K", 102400),
        ("3.14159M", 3294195),
        ("7.5B", 7),
        ("1024K", 1048576),
        ("0.75P", 844424930131968),
        ("2.5T", 2748779069440),
        ("96K", 98304),
        ("1.5e3", 1500),
        ("1.5e-3M", 1572),
        ("1e2K", 102400),
        ("0.125E", 144115188075855872),
        ("8E", 9223372036854775808),
        ("64.5M", 67633152),
        ("1.05G", 1127428915),
        ("10.0K", 10240),
        ("100M", 104857600),
        ("0.001M", 1048),
        ("000123K", 125952),
        ("123.000K", 125952),
        ("4.2K", 4300),
        ("17.3M", 18140364),
        ("250G", 268435456000),
        ("1.01T", 1110506744053),
        ("2.49G", 2673617141),
        ("5.5", 5),
        (".25M", 262144),
        ("1.", 1),
        ("+3K", 3072),
        ("-3K", 0),
        ("3.999B", 3),
        ("1e18", 1000000000000000000),
        ("1e19", 10000000000000000000),
        ("1e19B", 10000000000000000000),
    ];
    for (text, bytes) in table {
        assert_eq!(parse_size_string(text), Ok(bytes), "{}", text);
    }
}
