use live_wfc::chunk::Chunk;
use live_wfc::geometry::Vec3i;

struct ContainsTest {
    name: String,
    chunk: Chunk,
    position: Vec3i,
    expected: bool,
}

#[test]
fn test_contains() {
    let tests: Vec<ContainsTest> = vec![
        ContainsTest {
            name: "chunk contains chunk position".into(),
            chunk: Chunk::new(Vec3i { x: 0, y: 0, z: 0 }, Vec3i { x: 1, y: 1, z: 1 }),
            position: Vec3i { x: 0, y: 0, z: 0 },
            expected: true,
        },
        ContainsTest {
            name: "chunk does not contain chunk end".into(),
            chunk: Chunk::new(Vec3i { x: 0, y: 0, z: 0 }, Vec3i { x: 1, y: 1, z: 1 }),
            position: Vec3i { x: 1, y: 1, z: 1 },
            expected: false,
        },
        ContainsTest {
            name: "chunk does not contain 1 + x".into(),
            chunk: Chunk::new(Vec3i { x: 0, y: 0, z: 0 }, Vec3i { x: 1, y: 1, z: 1 }),
            position: Vec3i { x: 1, y: 0, z: 0 },
            expected: false,
        },
        ContainsTest {
            name: "chunk does not contain 1 + y".into(),
            chunk: Chunk::new(Vec3i { x: 0, y: 0, z: 0 }, Vec3i { x: 1, y: 1, z: 1 }),
            position: Vec3i { x: 0, y: 1, z: 0 },
            expected: false,
        },
        ContainsTest {
            name: "chunk does not contain 1 + z".into(),
            chunk: Chunk::new(Vec3i { x: 0, y: 0, z: 0 }, Vec3i { x: 1, y: 1, z: 1 }),
            position: Vec3i { x: 0, y: 0, z: 1 },
            expected: false,
        },
    ];
    for test in tests.iter() {
        assert_eq!(test.expected, test.chunk.contains(test.position), "Test Failed: {}", test.name);
    }
}
