use postcard_forth::{DeserStream, Deserialize, SerStream, Serialize};

#[derive(Debug, PartialEq)]
struct Alpha {
    a: u8,
    b: u16,
    c: u32,
    d: i8,
    e: i16,
    f: i32,
}

#[derive(Debug, PartialEq)]
struct Beta {
    a: u8,
    b: u16,
    c: u32,
    d: i8,
    e: i16,
    f: i32,
}

impl Alpha {
    fn serialize(&self, stream: &mut SerStream) -> Result<(), ()> {
        self.a.serialize(stream)?;
        self.b.serialize(stream)?;
        self.c.serialize(stream)?;
        self.d.serialize(stream)?;
        self.e.serialize(stream)?;
        self.f.serialize(stream)
    }
}

impl Beta {
    fn serialize(&self, stream: &mut SerStream) -> Result<(), ()> {
        self.a.serialize(stream)?;
        self.b.serialize(stream)?;
        self.c.serialize(stream)?;
        self.d.serialize(stream)?;
        self.e.serialize(stream)?;
        self.f.serialize(stream)
    }
}

impl Alpha {
    fn deserialize(stream: &mut DeserStream) -> Result<Alpha, ()> {
        Ok(Alpha {
            a: u8::deserialize(stream)?,
            b: u16::deserialize(stream)?,
            c: u32::deserialize(stream)?,
            d: i8::deserialize(stream)?,
            e: i16::deserialize(stream)?,
            f: i32::deserialize(stream)?,
        })
    }
}

impl Beta {
    fn deserialize(stream: &mut DeserStream) -> Result<Beta, ()> {
        Ok(Beta {
            a: u8::deserialize(stream)?,
            b: u16::deserialize(stream)?,
            c: u32::deserialize(stream)?,
            d: i8::deserialize(stream)?,
            e: i16::deserialize(stream)?,
            f: i32::deserialize(stream)?,
        })
    }
}

#[test]
fn smoke_ser() {
    let a = Alpha {
        a: 1,
        b: 256,
        c: 65536,
        d: -1,
        e: -129,
        f: -32769,
    };

    let mut outa = [0u8; 64];
    let mut sers = SerStream::from(outa.as_mut_slice());
    a.serialize(&mut sers).unwrap();
    let remain = sers.remain();
    let used = outa.len() - remain;
    assert_eq!(used, 12);
    assert_eq!(
        &outa[..used],
        &[1, 128, 2, 128, 128, 4, 255, 129, 2, 129, 128, 4]
    );

    let b = Beta {
        a: 1,
        b: 256,
        c: 65536,
        d: -1,
        e: -129,
        f: -32769,
    };

    let mut outb = [0u8; 64];
    let mut sers = SerStream::from(outb.as_mut_slice());
    b.serialize(&mut sers).unwrap();
    let remain = sers.remain();
    let used = outb.len() - remain;
    assert_eq!(used, 12);
    assert_eq!(
        &outb[..used],
        &[1, 128, 2, 128, 128, 4, 255, 129, 2, 129, 128, 4]
    );
}

#[test]
fn smoke_deser() {
    let bytes = &[1, 128, 2, 128, 128, 4, 255, 129, 2, 129, 128, 4];

    let mut desers = DeserStream::from(bytes.as_slice());
    let out = Alpha::deserialize(&mut desers).unwrap();
    let remain = desers.remain();
    assert_eq!(remain, 0);
    assert_eq!(
        Alpha {
            a: 1,
            b: 256,
            c: 65536,
            d: -1,
            e: -129,
            f: -32769,
        },
        out,
    );

    let mut desers = DeserStream::from(bytes.as_slice());
    let out = Beta::deserialize(&mut desers).unwrap();
    let remain = desers.remain();
    assert_eq!(remain, 0);
    assert_eq!(
        Beta {
            a: 1,
            b: 256,
            c: 65536,
            d: -1,
            e: -129,
            f: -32769,
        },
        out,
    );
}
